//! The commit-change indexer. Given the changes of a commit's diff against
//! its first parent, it interns the path of every addition, modification or
//! rewrite of a blob or symlink, and stores the sorted, duplicate-free list
//! of those ids under the commit's sha. Deletions are skipped: a file that
//! no longer exists cannot be a candidate.
use vstd::prelude::*;
use crate::cache::{PathCommitCache, StorageError, CachedCommit, spec_intern, lemma_intern_matches};
use crate::sort::{sort_pairs, lemma_insort_multiset};

verus! {

/// What a diff did at one location.
#[derive(Clone, Copy, PartialEq, Eq, Structural, Debug)]
pub enum ChangeKind {
    Addition,
    Deletion,
    Modification,
    Rewrite,
}

/// One change of a commit's first-parent diff, reduced to what indexing
/// reads: the kind, whether the entry is a blob or symlink, and the path of
/// the new location.
pub struct DiffChange {
    pub kind: ChangeKind,
    pub is_blob_or_symlink: bool,
    pub location: Vec<u8>,
}

/// The mathematical content of a change.
#[verifier::ext_equal]
pub struct ChangeModel {
    pub kind: ChangeKind,
    pub is_blob_or_symlink: bool,
    pub location: Seq<u8>,
}

impl View for DiffChange {
    type V = ChangeModel;

    open spec fn view(&self) -> ChangeModel {
        ChangeModel {
            kind: self.kind,
            is_blob_or_symlink: self.is_blob_or_symlink,
            location: self.location@,
        }
    }
}

/// Changes that contribute a path id.
pub open spec fn relevant(c: ChangeModel) -> bool {
    c.kind != ChangeKind::Deletion && c.is_blob_or_symlink
}

/// Interning every relevant change left to right: the grown path table and
/// the ids collected, in diff order.
pub open spec fn spec_collect(m: Seq<(Seq<u8>, Option<u32>)>, changes: Seq<ChangeModel>) -> (
    Seq<(Seq<u8>, Option<u32>)>,
    Seq<u32>,
)
    decreases changes.len(),
{
    if changes.len() == 0 {
        (m, Seq::empty())
    } else if relevant(changes[0]) {
        let (m1, id) = spec_intern(m, changes[0].location);
        let (m2, rest) = spec_collect(m1, changes.drop_first());
        (m2, seq![id] + rest)
    } else {
        spec_collect(m, changes.drop_first())
    }
}

/// Strictly ascending: sorted with no duplicates.
pub open spec fn strictly_ascending(s: Seq<u32>) -> bool {
    forall|i: int, j: int| 0 <= i < j < s.len() ==> #[trigger] s[i] < #[trigger] s[j]
}

/// Keeps the first of every run of equal values in a sorted list.
fn dedup_sorted(v: &Vec<u32>) -> (r: Vec<u32>)
    requires
        forall|i: int, j: int| 0 <= i <= j < v@.len() ==> #[trigger] v@[i] <= #[trigger] v@[j],
    ensures
        strictly_ascending(r@),
        forall|x: u32| r@.contains(x) <==> v@.contains(x),
{
    let mut out: Vec<u32> = Vec::new();
    let n = v.len();
    let mut i: usize = 0;
    while i < n
        invariant
            i <= n,
            n == v@.len(),
            forall|a: int, b: int| 0 <= a <= b < v@.len() ==> #[trigger] v@[a] <= #[trigger] v@[b],
            strictly_ascending(out@),
            i == 0 ==> out@.len() == 0,
            i > 0 ==> out@.len() > 0 && out@.last() == v@[i - 1],
            forall|x: u32| out@.contains(x) <==> v@.take(i as int).contains(x),
        decreases n - i,
    {
        let x = v[i];
        let ghost prev = out@;
        if out.len() == 0 || out[out.len() - 1] != x {
            proof {
                if i > 0 {
                    assert(v@[i - 1] <= v@[i as int]);
                }
            }
            out.push(x);
            proof {
                assert(out@.last() == x);
                assert forall|a: int, b: int|
                    0 <= a < b < out@.len() implies #[trigger] out@[a] < #[trigger] out@[b] by {
                    if b < prev.len() {
                        assert(out@[a] == prev[a] && out@[b] == prev[b]);
                    } else {
                        assert(out@[b] == x);
                        assert(out@[a] == prev[a]);
                        assert(prev.len() > 0);
                        assert(i > 0);
                        assert(prev.last() == v@[i - 1]);
                        assert(v@[i - 1] <= v@[i as int]);
                        assert(prev.last() != x);
                        if a < prev.len() - 1 {
                            assert(prev[a] < prev[prev.len() - 1]);
                        }
                    }
                }
                assert forall|y: u32| out@.contains(y) <==> v@.take(i as int + 1).contains(
                    y,
                ) by {
                    if out@.contains(y) {
                        let k = choose|k: int| 0 <= k < out@.len() && out@[k] == y;
                        if k < prev.len() {
                            assert(prev[k] == y);
                            assert(prev.contains(y));
                            let w = choose|w: int|
                                0 <= w < i as int && #[trigger] v@.take(i as int)[w] == y;
                            assert(v@.take(i as int + 1)[w] == y);
                        } else {
                            assert(v@.take(i as int + 1)[i as int] == x);
                        }
                    }
                    if v@.take(i as int + 1).contains(y) {
                        let w = choose|w: int|
                            0 <= w < i as int + 1 && #[trigger] v@.take(i as int + 1)[w] == y;
                        if w < i as int {
                            assert(v@.take(i as int)[w] == y);
                            assert(prev.contains(y));
                            let k = choose|k: int| 0 <= k < prev.len() && prev[k] == y;
                            assert(out@[k] == y);
                        } else {
                            assert(out@.last() == y);
                        }
                    }
                }
            }
        } else {
            proof {
                assert(out@.last() == x);
                assert forall|y: u32| out@.contains(y) <==> v@.take(i as int + 1).contains(
                    y,
                ) by {
                    if out@.contains(y) {
                        let w = choose|w: int| 0 <= w < i as int && v@.take(i as int)[w] == y;
                        assert(v@.take(i as int + 1)[w] == y);
                    }
                    if v@.take(i as int + 1).contains(y) {
                        let w = choose|w: int|
                            0 <= w < i as int + 1 && #[trigger] v@.take(i as int + 1)[w] == y;
                        if w < i as int {
                            assert(v@.take(i as int)[w] == y);
                        } else {
                            assert(y == x);
                            assert(out@.contains(x)) by {
                                assert(out@[out@.len() - 1] == x);
                            }
                        }
                    }
                }
            }
        }
        i = i + 1;
    }
    proof {
        assert(v@.take(n as int) =~= v@);
    }
    out
}

/// Sorts a list of ids.
fn sort_ids(v: &Vec<u32>) -> (r: Vec<u32>)
    ensures
        forall|i: int, j: int| 0 <= i <= j < r@.len() ==> #[trigger] r@[i] <= #[trigger] r@[j],
        forall|x: u32| r@.contains(x) <==> v@.contains(x),
        r@.len() == v@.len(),
{
    let mut pairs: Vec<(u64, u32)> = Vec::new();
    let n = v.len();
    let mut i: usize = 0;
    while i < n
        invariant
            i <= n,
            n == v@.len(),
            pairs@.len() == i,
            forall|k: int| 0 <= k < i ==> #[trigger] pairs@[k] == (v@[k] as u64, v@[k]),
        decreases n - i,
    {
        let x = v[i];
        pairs.push((x as u64, x));
        i = i + 1;
    }
    let sorted = sort_pairs(pairs);
    proof {
        broadcast use vstd::seq_lib::group_to_multiset_ensures;

        lemma_insort_multiset(pairs@);
        assert forall|k: int| 0 <= k < sorted@.len() implies (#[trigger] sorted@[k]).0 == sorted@[k].1
            as u64 by {
            assert(sorted@.contains(sorted@[k]));
            assert(sorted@.to_multiset().count(sorted@[k]) > 0);
            assert(pairs@.contains(sorted@[k]));
        }
    }
    let mut out: Vec<u32> = Vec::new();
    let m = sorted.len();
    let mut j: usize = 0;
    while j < m
        invariant
            j <= m,
            m == sorted@.len(),
            out@.len() == j,
            forall|k: int| 0 <= k < j ==> #[trigger] out@[k] == sorted@[k].1,
        decreases m - j,
    {
        let p = sorted[j];
        out.push(p.1);
        j = j + 1;
    }
    proof {
        broadcast use vstd::seq_lib::group_to_multiset_ensures;

        lemma_insort_multiset(pairs@);
        assert forall|k: int, l: int|
            0 <= k <= l < out@.len() implies #[trigger] out@[k] <= #[trigger] out@[l] by {
            assert(sorted@[k].0 <= sorted@[l].0);
            assert(sorted@[k].0 == sorted@[k].1 as u64 && sorted@[l].0 == sorted@[l].1 as u64);
        }
        assert forall|x: u32| out@.contains(x) <==> v@.contains(x) by {
            if out@.contains(x) {
                let k = choose|k: int| 0 <= k < out@.len() && out@[k] == x;
                assert(sorted@[k] == (x as u64, x));
                assert(sorted@.contains((x as u64, x)));
                assert(sorted@.to_multiset().count((x as u64, x)) > 0);
                assert(pairs@.contains((x as u64, x)));
                let w = choose|w: int| 0 <= w < pairs@.len() && pairs@[w] == (x as u64, x);
                assert(v@[w] == x);
            }
            if v@.contains(x) {
                let w = choose|w: int| 0 <= w < v@.len() && v@[w] == x;
                assert(pairs@[w] == (x as u64, x));
                assert(pairs@.contains((x as u64, x)));
                assert(pairs@.to_multiset().count((x as u64, x)) > 0);
                assert(sorted@.contains((x as u64, x)));
                let k = choose|k: int| 0 <= k < sorted@.len() && sorted@[k] == (x as u64, x);
                assert(out@[k] == x);
            }
        }
    }
    out
}

/// Indexes one commit: interns the paths its diff touched and stores the
/// sorted, duplicate-free id list under its sha. A commit already indexed is
/// left exactly as it is.
pub fn index_commit(
    cache: &mut PathCommitCache,
    sha: &Vec<u8>,
    changes: &Vec<DiffChange>,
) -> (r: Result<(), StorageError>)
    requires
        old(cache).wf(),
    ensures
        final(cache).wf(),
        old(cache).has_commit(sha@) ==> *final(cache) == *old(cache) && r is Ok,
        match r {
            Ok(()) => !old(cache).has_commit(sha@) ==> {
                let (pm, ids) = spec_collect(
                    old(cache).paths_view(),
                    changes@.map_values(|c: DiffChange| c@),
                );
                &&& final(cache).paths_view() == pm
                &&& final(cache).has_commit(sha@)
                &&& match final(cache).spec_cached_commit(sha@) {
                    Some(l) => strictly_ascending(l) && (forall|x: u32|
                        l.contains(x) <==> ids.contains(x)),
                    None => false,
                }
                &&& forall|s2: Seq<u8>|
                    s2 != sha@ ==> #[trigger] final(cache).spec_cached_commit(s2) == old(
                        cache,
                    ).spec_cached_commit(s2)
            },
            Err(e) => {
                &&& final(cache).commits_view() == old(cache).commits_view()
                &&& final(cache).paths_view().len() == u32::MAX as int
            },
        },
{
    if cache.is_commit_cached(sha) {
        return Ok(());
    }
    let ghost cm = changes@.map_values(|c: DiffChange| c@);
    let mut ids: Vec<u32> = Vec::new();
    let n = changes.len();
    let mut i: usize = 0;
    proof {
        assert(cm.skip(0) =~= cm);
    }
    while i < n
        invariant
            cache.wf(),
            old(cache).wf(),
            !old(cache).has_commit(sha@),
            cm == changes@.map_values(|c: DiffChange| c@),
            n == changes@.len() && n == cm.len(),
            i <= n,
            cache.commits_view() == old(cache).commits_view(),
            spec_collect(old(cache).paths_view(), cm) == {
                let (pm, rest) = spec_collect(cache.paths_view(), cm.skip(i as int));
                (pm, ids@ + rest)
            },
        decreases n - i,
    {
        let ghost pre = cache.paths_view();
        let ghost preids = ids@;
        let c = &changes[i];
        proof {
            assert(cm[i as int] == changes@[i as int]@);
            assert(cm.skip(i as int)[0] == cm[i as int]);
            assert(cm.skip(i as int).drop_first() =~= cm.skip(i as int + 1));
        }
        let is_deletion = match c.kind {
            ChangeKind::Deletion => true,
            _ => false,
        };
        if !is_deletion && c.is_blob_or_symlink {
            match cache.cache_path(&c.location) {
                Ok(id) => {
                    proof {
                        lemma_intern_matches(pre, cache.paths_view(), cm[i as int].location, id);
                        assert(spec_intern(pre, cm[i as int].location) == (
                            cache.paths_view(),
                            id,
                        ));
                        assert(preids + (seq![id] + spec_collect(
                            cache.paths_view(),
                            cm.skip(i as int + 1),
                        ).1) =~= preids.push(id) + spec_collect(
                            cache.paths_view(),
                            cm.skip(i as int + 1),
                        ).1);
                    }
                    ids.push(id);
                },
                Err(e) => {
                    return Err(e);
                },
            }
        }
        i = i + 1;
    }
    proof {
        assert(cm.skip(n as int) =~= Seq::<ChangeModel>::empty());
        assert(ids@ + Seq::<u32>::empty() =~= ids@);
        assert(spec_collect(old(cache).paths_view(), cm).1 == ids@);
        assert(spec_collect(old(cache).paths_view(), cm).0 == cache.paths_view());
    }
    let sorted = sort_ids(&ids);
    let unique = dedup_sorted(&sorted);
    let rec = CachedCommit { changed_paths: unique };
    cache.update_cached_commit(sha, &rec);
    proof {
        assert forall|s2: Seq<u8>|
            s2 != sha@ implies #[trigger] cache.spec_cached_commit(s2) == old(
            cache,
        ).spec_cached_commit(s2) by {
            lemma_push_other_commit(
                old(cache).commits_view(),
                cache.commits_view(),
                sha@,
                crate::varint::enc_list(rec.changed_paths@),
                s2,
            );
        }
    }
    Ok(())
}

/// Appending a record for one sha leaves every other sha's lookup alone.
proof fn lemma_push_other_commit(
    before: Seq<(Seq<u8>, Seq<u8>)>,
    after: Seq<(Seq<u8>, Seq<u8>)>,
    sha: Seq<u8>,
    blob: Seq<u8>,
    other: Seq<u8>,
)
    requires
        after == before.push((sha, blob)),
        other != sha,
        forall|i: int, j: int|
            0 <= i < j < before.len() ==> (#[trigger] before[i]).0 != (#[trigger] before[j]).0,
    ensures
        (exists|i: int| 0 <= i < after.len() && (#[trigger] after[i]).0 == other) == (exists|i: int|
            0 <= i < before.len() && (#[trigger] before[i]).0 == other),
        (exists|i: int| 0 <= i < after.len() && (#[trigger] after[i]).0 == other) ==> after[
            choose|i: int| 0 <= i < after.len() && (#[trigger] after[i]).0 == other
        ] == before[
            choose|i: int| 0 <= i < before.len() && (#[trigger] before[i]).0 == other
        ],
{
    if exists|i: int| 0 <= i < after.len() && (#[trigger] after[i]).0 == other {
        let i = choose|i: int| 0 <= i < after.len() && (#[trigger] after[i]).0 == other;
        assert(i < before.len()) by {
            if i == before.len() {
                assert(after[i].0 == sha);
            }
        }
        assert(before[i].0 == other);
        let j = choose|j: int| 0 <= j < before.len() && (#[trigger] before[j]).0 == other;
        assert(j == i) by {
            if j < i {
                assert(before[j].0 != before[i].0);
            }
            if i < j {
                assert(before[i].0 != before[j].0);
            }
        }
        assert(after[i] == before[i]);
    }
    if exists|i: int| 0 <= i < before.len() && (#[trigger] before[i]).0 == other {
        let i = choose|i: int| 0 <= i < before.len() && (#[trigger] before[i]).0 == other;
        assert(after[i].0 == other);
    }
}

} // verus!
