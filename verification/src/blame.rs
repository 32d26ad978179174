//! Blame data. A `BlameEntry` attributes a contiguous run of lines to one
//! commit; a `LazyBlame` collects entries as an ingestion produces them,
//! hands out snapshots sorted by position in the blamed file, and carries a
//! readiness flag that the ingestion raises once, when it is done.
use vstd::prelude::*;
use crate::LineRange;
use crate::sort::{insort, sorted_pairs, keyed_map, sort_pairs};
use crate::sort::{lemma_insort_map, lemma_insort_multiset, lemma_insort_sorted,
    lemma_insort_of_sorted, lemma_map_multiset};

verus! {

/// One blamed hunk: where its lines sit in the blamed file, where they sat
/// in the file as of the blamed commit, and that commit's raw sha bytes.
#[derive(Debug)]
pub struct BlameEntry {
    pub range_in_blamed_file: LineRange,
    pub range_in_original_file: LineRange,
    pub commit_id: Vec<u8>,
}

/// The mathematical content of one entry.
#[verifier::ext_equal]
pub struct EntryModel {
    pub rb: LineRange,
    pub ro: LineRange,
    pub sha: Seq<u8>,
}

impl View for BlameEntry {
    type V = EntryModel;

    open spec fn view(&self) -> EntryModel {
        EntryModel {
            rb: self.range_in_blamed_file,
            ro: self.range_in_original_file,
            sha: self.commit_id@,
        }
    }
}

/// The models of a run of entries.
pub open spec fn entries_view(s: Seq<BlameEntry>) -> Seq<EntryModel> {
    s.map_values(|e: BlameEntry| e@)
}

/// The key entries are ordered by: the first line they blame.
pub open spec fn entry_key(m: EntryModel) -> u64 {
    m.rb.start as u64
}

/// Entries ordered by position in the blamed file.
pub open spec fn entries_sorted(s: Seq<EntryModel>) -> bool {
    forall|i: int, j: int|
        0 <= i <= j < s.len() ==> (#[trigger] s[i]).rb.start <= (#[trigger] s[j]).rb.start
}

/// The stable sort of entries by position.
pub open spec fn sort_entries(s: Seq<EntryModel>) -> Seq<EntryModel> {
    insort(s.map_values(|m: EntryModel| (entry_key(m), m))).map_values(
        |p: (u64, EntryModel)| p.1,
    )
}

/// What the sort does: same entries, ordered by position, and already
/// ordered input comes back unchanged.
pub proof fn lemma_sort_entries(s: Seq<EntryModel>)
    ensures
        entries_sorted(sort_entries(s)),
        sort_entries(s).to_multiset() == s.to_multiset(),
        sort_entries(s).len() == s.len(),
        entries_sorted(s) ==> sort_entries(s) == s,
{
    let z = s.map_values(|m: EntryModel| (entry_key(m), m));
    lemma_insort_sorted(z);
    lemma_insort_multiset(z);
    let r = insort(z);
    assert forall|i: int, j: int|
        0 <= i <= j < sort_entries(s).len() implies (#[trigger] sort_entries(s)[i]).rb.start <= (
    #[trigger] sort_entries(s)[j]).rb.start by {
        assert(r[i].0 <= r[j].0);
        assert(sort_entries(s)[i] == r[i].1);
        assert(r[i].1.rb.start as u64 <= r[j].1.rb.start as u64) by {
            lemma_insort_key_of(z, i);
            lemma_insort_key_of(z, j);
        }
    }
    lemma_map_multiset(r, z, |p: (u64, EntryModel)| p.1);
    assert(z.map_values(|p: (u64, EntryModel)| p.1) =~= s);
    if entries_sorted(s) {
        assert(sorted_pairs(z)) by {
            assert(forall|i: int| 0 <= i < z.len() ==> (#[trigger] z[i]) == (entry_key(s[i]), s[i]));
        }
        lemma_insort_of_sorted(z);
        assert(sort_entries(s) =~= s);
    }
}

/// Every pair the sort returns carries the key of its own payload.
proof fn lemma_insort_key_of(z: Seq<(u64, EntryModel)>, i: int)
    requires
        forall|k: int| 0 <= k < z.len() ==> (#[trigger] z[k]).0 == entry_key(z[k].1),
        0 <= i < insort(z).len(),
    ensures
        insort(z)[i].0 == entry_key(insort(z)[i].1),
{
    broadcast use vstd::seq_lib::group_to_multiset_ensures;

    lemma_insort_multiset(z);
    let p = insort(z)[i];
    assert(insort(z).contains(p));
    assert(insort(z).to_multiset().count(p) > 0);
    assert(z.contains(p));
}

/// An owned copy of an entry with the same content.
pub fn clone_entry(e: &BlameEntry) -> (r: BlameEntry)
    ensures
        r@ == e@,
{
    let r = BlameEntry {
        range_in_blamed_file: e.range_in_blamed_file,
        range_in_original_file: e.range_in_original_file,
        commit_id: crate::clone_bytes(&e.commit_id),
    };
    assert(r@ =~= e@);
    r
}

/// A blame being filled in: the entries seen so far, how many of them are
/// already in sorted order, and whether ingestion has finished.
pub struct LazyBlame {
    pub file_path: Vec<u8>,
    blame: Vec<BlameEntry>,
    sorted: usize,
    ready: bool,
}

impl LazyBlame {
    /// The entries collected so far.
    pub closed spec fn entries(self) -> Seq<EntryModel> {
        entries_view(self.blame@)
    }

    /// Whether ingestion has finished.
    pub closed spec fn spec_ready(self) -> bool {
        self.ready
    }

    /// The path this blame is for.
    pub closed spec fn path_view(self) -> Seq<u8> {
        self.file_path@
    }

    /// The sorted prefix never overstates itself, and when it covers the
    /// whole list the list really is sorted.
    pub closed spec fn wf(self) -> bool {
        &&& self.sorted <= self.blame@.len()
        &&& (self.sorted == self.blame@.len() ==> entries_sorted(self.entries()))
    }

    pub fn new(file_path: Vec<u8>) -> (r: Self)
        ensures
            r.wf(),
            r.path_view() == file_path@,
            r.entries() == Seq::<EntryModel>::empty(),
            !r.spec_ready(),
    {
        let r = LazyBlame { file_path, blame: Vec::new(), sorted: 0, ready: false };
        proof {
            assert(r.entries() =~= Seq::<EntryModel>::empty());
        }
        r
    }

    /// Appends one entry. Only an unfinished blame may grow.
    pub fn add_entry(&mut self, entry: BlameEntry)
        requires
            old(self).wf(),
            !old(self).spec_ready(),
        ensures
            final(self).wf(),
            final(self).entries() == old(self).entries().push(entry@),
            final(self).spec_ready() == old(self).spec_ready(),
            final(self).path_view() == old(self).path_view(),
    {
        let ghost oldv = self.entries();
        let ghost e = entry@;
        let n = self.blame.len();
        self.blame.push(entry);
        if self.sorted > n {
            self.sorted = n;
        }
        proof {
            assert(self.entries() =~= oldv.push(e));
        }
    }

    pub fn is_ready(&self) -> (r: bool)
        ensures
            r == self.spec_ready(),
    {
        self.ready
    }

    /// Marks ingestion as finished; entries stop changing from here on.
    pub fn mark_as_finished(&mut self)
        requires
            old(self).wf(),
        ensures
            final(self).wf(),
            final(self).spec_ready(),
            final(self).entries() == old(self).entries(),
            final(self).path_view() == old(self).path_view(),
    {
        self.ready = true;
    }

    /// A snapshot of the entries, sorted by position in the blamed file.
    /// Also brings the internal list into sorted order, so a repeat call
    /// only copies.
    pub fn lines(&mut self) -> (r: Vec<BlameEntry>)
        requires
            old(self).wf(),
        ensures
            final(self).wf(),
            entries_view(r@) == sort_entries(old(self).entries()),
            entries_sorted(entries_view(r@)),
            entries_view(r@).to_multiset() == old(self).entries().to_multiset(),
            final(self).entries() == entries_view(r@),
            final(self).spec_ready() == old(self).spec_ready(),
            final(self).path_view() == old(self).path_view(),
    {
        proof {
            lemma_sort_entries(old(self).entries());
        }
        if self.sorted < self.blame.len() {
            let ghost ov: Seq<BlameEntry> = self.blame@;
            let mut pairs: Vec<(u64, BlameEntry)> = Vec::new();
            while self.blame.len() > 0
                invariant
                    pairs@.len() + self.blame@.len() == ov.len(),
                    self.blame@ == ov.skip(pairs@.len() as int),
                    forall|k: int|
                        0 <= k < pairs@.len() ==> (#[trigger] pairs@[k]).1 == ov[k] && pairs@[k].0
                            == entry_key(ov[k]@),
                    self.file_path@ == old(self).file_path@,
                    self.ready == old(self).ready,
                decreases self.blame@.len(),
            {
                let ghost i = pairs@.len() as int;
                let e = self.blame.remove(0);
                proof {
                    assert(ov.skip(i).remove(0) =~= ov.skip(i + 1));
                    assert(e == ov[i]);
                }
                let k = e.range_in_blamed_file.start;
                pairs.push((k as u64, e));
            }
            proof {
                assert(pairs@.map_values(|p: (u64, BlameEntry)| (p.0, p.1@)) =~= entries_view(
                    ov,
                ).map_values(|m: EntryModel| (entry_key(m), m)));
            }
            let sorted = sort_pairs(pairs);
            proof {
                lemma_insort_map(pairs@, |e: BlameEntry| e@);
                assert(pairs@.map_values(keyed_map(|e: BlameEntry| e@)) =~= pairs@.map_values(
                    |p: (u64, BlameEntry)| (p.0, p.1@),
                ));
                assert(sorted@.map_values(keyed_map(|e: BlameEntry| e@)) == insort(
                    entries_view(ov).map_values(|m: EntryModel| (entry_key(m), m)),
                ));
            }
            let ghost sv: Seq<(u64, BlameEntry)> = sorted@;
            let mut sorted = sorted;
            while sorted.len() > 0
                invariant
                    self.blame@.len() + sorted@.len() == sv.len(),
                    sorted@ == sv.skip(self.blame@.len() as int),
                    forall|k: int|
                        0 <= k < self.blame@.len() ==> (#[trigger] self.blame@[k]) == sv[k].1,
                    self.file_path@ == old(self).file_path@,
                    self.ready == old(self).ready,
                decreases sorted@.len(),
            {
                let ghost i = self.blame@.len() as int;
                let p = sorted.remove(0);
                proof {
                    assert(sv.skip(i).remove(0) =~= sv.skip(i + 1));
                    assert(p == sv[i]);
                }
                self.blame.push(p.1);
            }
            proof {
                assert(self.entries() =~= sv.map_values(keyed_map(|e: BlameEntry| e@)).map_values(
                    |p: (u64, EntryModel)| p.1,
                ));
                assert(self.entries() =~= sort_entries(entries_view(ov)));
            }
            let n = self.blame.len();
            self.sorted = n;
        } else {
            proof {
                assert(self.entries() == sort_entries(old(self).entries()));
            }
        }
        let ghost mid = *self;
        let mut out: Vec<BlameEntry> = Vec::new();
        let n = self.blame.len();
        let mut i: usize = 0;
        while i < n
            invariant
                *self == mid,
                n == self.blame@.len(),
                i <= n,
                entries_view(out@) == self.entries().take(i as int),
            decreases n - i,
        {
            proof {
                assert(self.entries()[i as int] == self.blame@[i as int]@);
            }
            let ghost prev = out@;
            let e = clone_entry(&self.blame[i]);
            let ghost ev = e@;
            out.push(e);
            proof {
                let t = self.entries().take(i as int + 1);
                assert(entries_view(prev).len() == prev.len());
                assert(prev.len() == i as int);
                assert(out@.len() == i + 1);
                assert forall|k: int| 0 <= k <= i as int implies entries_view(out@)[k] == t[k] by {
                    assert(entries_view(out@)[k] == out@[k]@);
                    if k < i as int {
                        assert(out@[k] == prev[k]);
                        assert(entries_view(prev)[k] == prev[k]@);
                    } else {
                        assert(out@[k]@ == ev);
                    }
                }
                assert(entries_view(out@) =~= t);
            }
            i = i + 1;
        }
        proof {
            assert(self.entries().take(n as int) =~= self.entries());
        }
        out
    }
}

} // verus!
