//! The candidate ranker. Around the blame entry nearest the queried line
//! (1-based, as git numbers lines) it takes a window of entries, gathers the
//! indexed commits found there (the interesting set), credits every file
//! those commits touched with a weight that decays with distance from the
//! query, keeps the strongest few, and resolves their paths. A second pass
//! scores each survivor by how many of its own lines the interesting commits
//! account for. A query past the end of the last blamed range yields
//! nothing, and the queried file is never a candidate for itself.
//!
//! Weights are kept in tenths, as integers: each window entry contributes
//! `20 - 2*d` tenths at distance `d`. The final ordering multiplies the
//! weight by the candidate's touched-line count; dividing by the common
//! maximum, as the reported weight does, cannot change that order.
use vstd::prelude::*;
use crate::LineRange;
use crate::blame::{BlameEntry, EntryModel, entries_view, entries_sorted};
use crate::cache::{PathCommitCache, spec_resolve, spec_find_path};
use crate::sort::{insort, sort_pairs, lemma_insort_map, keyed_map};

verus! {

/// How many candidates survive the first ranking pass.
pub const TOP_N: usize = 20;

/// One candidate file: the interned id and bytes of its path, the line
/// ranges the interesting commits account for, how many lines those ranges
/// cover, the accumulated weight in tenths, and the commit that first
/// brought the file in.
#[derive(Debug)]
pub struct Candidate {
    pub path_id: u32,
    pub path: Option<Vec<u8>>,
    pub locations: Vec<LineRange>,
    pub touched_lines: u32,
    pub weight_tenths: u32,
    pub commit: Vec<u8>,
}

/// The mathematical content of a candidate.
#[verifier::ext_equal]
pub struct CandModel {
    pub path_id: u32,
    pub path: Option<Seq<u8>>,
    pub locations: Seq<LineRange>,
    pub touched_lines: u32,
    pub weight_tenths: u32,
    pub commit: Seq<u8>,
}

impl View for Candidate {
    type V = CandModel;

    open spec fn view(&self) -> CandModel {
        CandModel {
            path_id: self.path_id,
            path: match self.path {
                None => None,
                Some(ref p) => Some(p@),
            },
            locations: self.locations@,
            touched_lines: self.touched_lines,
            weight_tenths: self.weight_tenths,
            commit: self.commit@,
        }
    }
}

/// The models of a run of candidates.
pub open spec fn cands_view(s: Seq<Candidate>) -> Seq<CandModel> {
    s.map_values(|c: Candidate| c@)
}

/// The models of a run of sha byte strings.
pub open spec fn shas_view(s: Seq<Vec<u8>>) -> Seq<Seq<u8>> {
    s.map_values(|v: Vec<u8>| v@)
}

/// The first entry starting at or past the queried line: where the line
/// would be inserted.
pub open spec fn spec_lower_bound(s: Seq<EntryModel>, lineno: u32) -> int
    decreases s.len(),
{
    if s.len() == 0 {
        0
    } else if s[0].rb.start >= lineno {
        0
    } else {
        1 + spec_lower_bound(s.drop_first(), lineno)
    }
}

pub proof fn lemma_lower_bound(s: Seq<EntryModel>, lineno: u32)
    ensures
        0 <= spec_lower_bound(s, lineno) <= s.len(),
        forall|i: int| 0 <= i < spec_lower_bound(s, lineno) ==> (#[trigger] s[i]).rb.start < lineno,
        spec_lower_bound(s, lineno) < s.len() ==> s[spec_lower_bound(s, lineno)].rb.start >= lineno,
    decreases s.len(),
{
    if s.len() == 0 {
    } else if s[0].rb.start >= lineno {
    } else {
        lemma_lower_bound(s.drop_first(), lineno);
        assert forall|i: int|
            0 <= i < spec_lower_bound(s, lineno) implies (#[trigger] s[i]).rb.start < lineno by {
            if i >= 1 {
                assert(s.drop_first()[i - 1] == s[i]);
                assert(s.drop_first()[i - 1].rb.start < lineno);
            }
        }
    }
}

/// Saturating addition of weights.
pub open spec fn sat_add(a: u32, b: u32) -> u32 {
    if a + b > u32::MAX {
        u32::MAX
    } else {
        (a + b) as u32
    }
}

/// A fresh candidate for a path first seen under `sha`.
pub open spec fn new_cand(pid: u32, add: u32, sha: Seq<u8>) -> CandModel {
    CandModel {
        path_id: pid,
        path: None,
        locations: Seq::empty(),
        touched_lines: 0,
        weight_tenths: add,
        commit: sha,
    }
}

/// Credits the candidate for `pid` with `add` tenths, creating it under
/// `sha` where it is new.
pub open spec fn bump(cands: Seq<CandModel>, pid: u32, add: u32, sha: Seq<u8>) -> Seq<CandModel>
    decreases cands.len(),
{
    if cands.len() == 0 {
        seq![new_cand(pid, add, sha)]
    } else if cands[0].path_id == pid {
        seq![
            CandModel { weight_tenths: sat_add(cands[0].weight_tenths, add), ..cands[0] },
        ] + cands.drop_first()
    } else {
        seq![cands[0]] + bump(cands.drop_first(), pid, add, sha)
    }
}

/// Credits every path a commit touched.
pub open spec fn bump_all(cands: Seq<CandModel>, pids: Seq<u32>, add: u32, sha: Seq<u8>) -> Seq<
    CandModel,
>
    decreases pids.len(),
{
    if pids.len() == 0 {
        cands
    } else {
        bump_all(bump(cands, pids[0], add, sha), pids.drop_first(), add, sha)
    }
}

/// Distance between window offset and query point.
pub open spec fn dist(r: int, k: int) -> int {
    if r >= k {
        r - k
    } else {
        k - r
    }
}

/// Walking the window: for every entry whose commit is indexed, remember the
/// commit and credit every file it touched.
pub open spec fn accum(
    cache: PathCommitCache,
    lines: Seq<EntryModel>,
    k: int,
    i: int,
    end: int,
    acc: (Seq<Seq<u8>>, Seq<CandModel>),
) -> (Seq<Seq<u8>>, Seq<CandModel>)
    decreases end - i,
{
    if i < 0 || i >= end || end > lines.len() {
        acc
    } else {
        match cache.spec_cached_commit(lines[i].sha) {
            None => accum(cache, lines, k, i + 1, end, acc),
            Some(pids) => {
                let inter = if acc.0.contains(lines[i].sha) {
                    acc.0
                } else {
                    acc.0.push(lines[i].sha)
                };
                let add = (20 - 2 * (if dist(i, k) <= 3 { dist(i, k) } else { 3 })) as u32;
                accum(cache, lines, k, i + 1, end, (inter, bump_all(acc.1, pids, add, lines[i].sha)))
            },
        }
    }
}

/// The key of the first ranking pass: heavier first, then smaller path id.
pub open spec fn cand_key(c: CandModel) -> u64 {
    ((0xFFFF_FFFFu64 - c.weight_tenths as u64) * 0x1_0000_0000u64 + c.path_id as u64) as u64
}

/// The first ranking pass's order.
pub open spec fn sort_cands(s: Seq<CandModel>) -> Seq<CandModel> {
    insort(s.map_values(|c: CandModel| (cand_key(c), c))).map_values(|p: (u64, CandModel)| p.1)
}

/// At most the strongest `TOP_N` candidates.
pub open spec fn truncated(s: Seq<CandModel>) -> Seq<CandModel> {
    if s.len() > TOP_N as int {
        s.take(TOP_N as int)
    } else {
        s
    }
}

/// Fills in each candidate's canonical path, where its id resolves.
pub open spec fn resolve_all(m: Seq<(Seq<u8>, Option<u32>)>, s: Seq<CandModel>) -> Seq<CandModel> {
    s.map_values(|c: CandModel| CandModel { path: spec_resolve(m, c.path_id as int), ..c })
}

/// One past the last line any entry covers: for a complete blame, one past
/// the file's final line. Line numbers are 1-based, as git emits them.
pub open spec fn max_end(s: Seq<EntryModel>) -> u32
    decreases s.len(),
{
    if s.len() == 0 {
        0u32
    } else {
        let m = max_end(s.drop_last());
        if s.last().rb.end > m {
            s.last().rb.end
        } else {
            m
        }
    }
}

/// Every candidate but the queried file itself: a file is never related to
/// itself, so its own id is dropped before ranking.
pub open spec fn drop_self(s: Seq<CandModel>, qid: Option<u32>) -> Seq<CandModel>
    decreases s.len(),
{
    if s.len() == 0 {
        Seq::empty()
    } else {
        drop_self(s.drop_last(), qid) + (if qid == Some(s.last().path_id) {
            Seq::empty()
        } else {
            seq![s.last()]
        })
    }
}

/// The whole first pass: nothing for a line past the blamed file's end;
/// otherwise locate, window, accumulate, drop the queried file itself,
/// order, truncate, resolve.
pub open spec fn spec_select(
    cache: PathCommitCache,
    lines: Seq<EntryModel>,
    lineno: u32,
    qpath: Seq<u8>,
) -> (Seq<Seq<u8>>, Seq<CandModel>) {
    if lineno >= max_end(lines) {
        (Seq::empty(), Seq::empty())
    } else {
        let qid = spec_find_path(cache.paths_view(), qpath);
        let k = spec_lower_bound(lines, lineno);
        let start = if k >= 3 {
            k - 3
        } else {
            0
        };
        let end = if k + 3 <= lines.len() {
            k + 3
        } else {
            lines.len() as int
        };
        let (inter, cands) = accum(cache, lines, k, start, end, (Seq::empty(), Seq::empty()));
        (inter, resolve_all(cache.paths_view(), truncated(sort_cands(drop_self(cands, qid)))))
    }
}

/// A window in which nothing is indexed yields nothing.
pub proof fn lemma_accum_no_hits(
    cache: PathCommitCache,
    lines: Seq<EntryModel>,
    k: int,
    i: int,
    end: int,
    acc: (Seq<Seq<u8>>, Seq<CandModel>),
)
    requires
        forall|j: int|
            i <= j < end && 0 <= j < lines.len() ==> #[trigger] cache.spec_cached_commit(
                lines[j].sha,
            ) is None,
    ensures
        accum(cache, lines, k, i, end, acc) == acc,
    decreases end - i,
{
    if i < 0 || i >= end || end > lines.len() {
    } else {
        lemma_accum_no_hits(cache, lines, k, i + 1, end, acc);
    }
}

fn contains_sha(set: &Vec<Vec<u8>>, sha: &Vec<u8>) -> (r: bool)
    ensures
        r == shas_view(set@).contains(sha@),
{
    let n = set.len();
    let mut i: usize = 0;
    while i < n
        invariant
            i <= n,
            n == set@.len(),
            forall|k: int| 0 <= k < i ==> shas_view(set@)[k] != sha@,
        decreases n - i,
    {
        if crate::bytes_eq(&set[i], sha) {
            assert(shas_view(set@)[i as int] == sha@);
            return true;
        }
        i = i + 1;
    }
    assert forall|k: int| 0 <= k < shas_view(set@).len() implies shas_view(set@)[k] != sha@ by {}
    false
}

/// One credit step on the concrete candidate list.
fn bump_one(cands: &mut Vec<Candidate>, pid: u32, add: u32, sha: &Vec<u8>)
    ensures
        cands_view(final(cands)@) == bump(cands_view(old(cands)@), pid, add, sha@),
{
    let n = cands.len();
    let mut j: usize = 0;
    while j < n
        invariant
            *cands == *old(cands),
            n == cands@.len(),
            j <= n,
            forall|k: int| 0 <= k < j ==> (#[trigger] cands_view(cands@)[k]).path_id != pid,
        decreases n - j,
    {
        if cands[j].path_id == pid {
            assert(cands_view(cands@)[j as int].path_id == pid);
            let mut c = cands.remove(j);
            let w = if c.weight_tenths > u32::MAX - add {
                u32::MAX
            } else {
                c.weight_tenths + add
            };
            c.weight_tenths = w;
            cands.insert(j, c);
            proof {
                let ov = cands_view(old(cands)@);
                assert(cands@ =~= old(cands)@.remove(j as int).insert(j as int, cands@[j as int]));
                assert(cands_view(cands@) =~= ov.update(
                    j as int,
                    CandModel { weight_tenths: sat_add(ov[j as int].weight_tenths, add), ..ov[j as int] },
                ));
                lemma_bump_found(ov, j as int, pid, add, sha@);
            }
            return;
        }
        j = j + 1;
    }
    let c = Candidate {
        path_id: pid,
        path: None,
        locations: Vec::new(),
        touched_lines: 0,
        weight_tenths: add,
        commit: crate::clone_bytes(sha),
    };
    proof {
        assert(c@ =~= new_cand(pid, add, sha@));
    }
    cands.push(c);
    proof {
        let ov = cands_view(old(cands)@);
        assert(cands_view(cands@) =~= ov.push(new_cand(pid, add, sha@)));
        lemma_bump_absent(ov, pid, add, sha@);
    }
}

proof fn lemma_bump_found(s: Seq<CandModel>, j: int, pid: u32, add: u32, sha: Seq<u8>)
    requires
        0 <= j < s.len(),
        forall|k: int| 0 <= k < j ==> (#[trigger] s[k]).path_id != pid,
        s[j].path_id == pid,
    ensures
        bump(s, pid, add, sha) == s.update(
            j,
            CandModel { weight_tenths: sat_add(s[j].weight_tenths, add), ..s[j] },
        ),
    decreases j,
{
    if j == 0 {
        assert(bump(s, pid, add, sha) =~= s.update(
            0,
            CandModel { weight_tenths: sat_add(s[0].weight_tenths, add), ..s[0] },
        ));
    } else {
        assert(s[0].path_id != pid);
        assert forall|k: int| 0 <= k < j - 1 implies (#[trigger] s.drop_first()[k]).path_id
            != pid by {
            assert(s.drop_first()[k] == s[k + 1]);
        }
        assert(s.drop_first()[j - 1] == s[j]);
        lemma_bump_found(s.drop_first(), j - 1, pid, add, sha);
        assert(bump(s, pid, add, sha) =~= s.update(
            j,
            CandModel { weight_tenths: sat_add(s[j].weight_tenths, add), ..s[j] },
        ));
    }
}

proof fn lemma_bump_absent(s: Seq<CandModel>, pid: u32, add: u32, sha: Seq<u8>)
    requires
        forall|k: int| 0 <= k < s.len() ==> (#[trigger] s[k]).path_id != pid,
    ensures
        bump(s, pid, add, sha) == s.push(new_cand(pid, add, sha)),
    decreases s.len(),
{
    if s.len() == 0 {
        assert(bump(s, pid, add, sha) =~= s.push(new_cand(pid, add, sha)));
    } else {
        assert(s[0].path_id != pid);
        assert forall|k: int| 0 <= k < s.drop_first().len() implies (#[trigger] s.drop_first()[k]).path_id
            != pid by {
            assert(s.drop_first()[k] == s[k + 1]);
        }
        lemma_bump_absent(s.drop_first(), pid, add, sha);
        assert(bump(s, pid, add, sha) =~= s.push(new_cand(pid, add, sha)));
    }
}

/// The first ranking pass for a query on line `lineno` (1-based) of the file
/// at `query_path`. Returns the interesting commits seen in the window and
/// the candidate list: the queried file itself excluded, ordered by weight
/// (heavier first, path id breaking ties), cut to `TOP_N`, paths resolved.
/// A line at or past the end of the last blamed range lies outside the file
/// and yields nothing. Everything the call returns is a function of the
/// cache, the entries and the query alone, so ranking is deterministic.
pub fn select_candidates(
    cache: &PathCommitCache,
    lines: &Vec<BlameEntry>,
    lineno: u32,
    query_path: &Vec<u8>,
) -> (r: (Vec<Vec<u8>>, Vec<Candidate>))
    requires
        cache.wf(),
        entries_sorted(entries_view(lines@)),
    ensures
        (shas_view(r.0@), cands_view(r.1@)) == spec_select(
            *cache,
            entries_view(lines@),
            lineno,
            query_path@,
        ),
        lineno >= max_end(entries_view(lines@)) ==> r.1@.len() == 0,
        ({
            let lm = entries_view(lines@);
            let kk = spec_lower_bound(lm, lineno);
            let ws = if kk >= 3 {
                kk - 3
            } else {
                0
            };
            let we = if kk + 3 <= lm.len() {
                kk + 3
            } else {
                lm.len() as int
            };
            (forall|j: int|
                ws <= j < we ==> #[trigger] cache.spec_cached_commit(lm[j].sha) is None)
                ==> r.1@.len() == 0
        }),
{
    let ghost lm = entries_view(lines@);
    let n = lines.len();
    let mut me: u32 = 0;
    let mut t: usize = 0;
    while t < n
        invariant
            t <= n,
            n == lines@.len() && lm == entries_view(lines@),
            me == max_end(lm.take(t as int)),
        decreases n - t,
    {
        proof {
            assert(lm.take(t as int + 1).drop_last() =~= lm.take(t as int));
            assert(lm.take(t as int + 1).last() == lm[t as int]);
            assert(lm[t as int] == lines@[t as int]@);
        }
        let e = lines[t].range_in_blamed_file.end;
        if e > me {
            me = e;
        }
        t = t + 1;
    }
    proof {
        assert(lm.take(n as int) =~= lm);
    }
    if lineno >= me {
        let ev: Vec<Vec<u8>> = Vec::new();
        let ec: Vec<Candidate> = Vec::new();
        proof {
            assert(shas_view(ev@) =~= Seq::<Seq<u8>>::empty());
            assert(cands_view(ec@) =~= Seq::<CandModel>::empty());
        }
        return (ev, ec);
    }
    let qid = cache.find_path_id(query_path);
    let ghost gqid = spec_find_path(cache.paths_view(), query_path@);
    let mut lo: usize = 0;
    let mut hi: usize = n;
    while lo < hi
        invariant
            lo <= hi <= n,
            n == lines@.len() && lm == entries_view(lines@),
            entries_sorted(lm),
            forall|i: int| 0 <= i < lo ==> (#[trigger] lm[i]).rb.start < lineno,
            forall|i: int| hi <= i < n ==> (#[trigger] lm[i]).rb.start >= lineno,
        decreases hi - lo,
    {
        let mid = lo + (hi - lo) / 2;
        assert(lm[mid as int].rb == lines@[mid as int]@.rb);
        if lines[mid].range_in_blamed_file.start < lineno {
            lo = mid + 1;
        } else {
            hi = mid;
        }
    }
    let k = lo;
    proof {
        lemma_lower_bound(lm, lineno);
        assert(k == spec_lower_bound(lm, lineno)) by {
            let p = spec_lower_bound(lm, lineno);
            if p < k as int {
                assert(lm[p].rb.start < lineno);
            }
            if (k as int) < p {
                assert(lm[k as int].rb.start < lineno);
            }
        }
    }
    let start = if k >= 3 {
        k - 3
    } else {
        0
    };
    let end = if n - k >= 3 {
        k + 3
    } else {
        n
    };
    let ghost gs: int = start as int;
    let ghost ge: int = end as int;
    let ghost gk: int = k as int;
    let mut inter: Vec<Vec<u8>> = Vec::new();
    let mut cands: Vec<Candidate> = Vec::new();
    proof {
        assert(shas_view(inter@) =~= Seq::<Seq<u8>>::empty());
        assert(cands_view(cands@) =~= Seq::<CandModel>::empty());
    }
    let mut i = start;
    while i < end
        invariant
            cache.wf(),
            n == lines@.len() && lm == entries_view(lines@),
            gs == start as int && ge == end as int && gk == k as int,
            start <= i <= end && end <= n,
            k <= n,
            accum(*cache, lm, gk, gs, ge, (Seq::empty(), Seq::empty())) == accum(
                *cache,
                lm,
                gk,
                i as int,
                ge,
                (shas_view(inter@), cands_view(cands@)),
            ),
        decreases end - i,
    {
        let ghost inter0 = shas_view(inter@);
        let ghost cv0 = cands_view(cands@);
        let e = &lines[i];
        proof {
            assert(lm[i as int] == lines@[i as int]@);
        }
        let ghost sha = lm[i as int].sha;
        match cache.cached_commit(&e.commit_id) {
            None => {
                proof {
                    assert(accum(*cache, lm, gk, i as int, ge, (inter0, cv0)) == accum(
                        *cache,
                        lm,
                        gk,
                        i as int + 1,
                        ge,
                        (inter0, cv0),
                    ));
                }
            },
            Some(rec) => {
                proof {
                    assert(cache.spec_cached_commit(sha) == Some(rec.changed_paths@));
                }
                if !contains_sha(&inter, &e.commit_id) {
                    let ghost before = inter@;
                    inter.push(crate::clone_bytes(&e.commit_id));
                    proof {
                        assert(shas_view(inter@) =~= shas_view(before).push(sha));
                    }
                }
                proof {
                    assert(shas_view(inter@) == if inter0.contains(sha) {
                        inter0
                    } else {
                        inter0.push(sha)
                    });
                }
                let d = if i >= k {
                    i - k
                } else {
                    k - i
                };
                let dd: usize = if d <= 3 {
                    d
                } else {
                    3
                };
                let add: u32 = (20 - 2 * dd as u32);
                proof {
                    assert(add as int == 20 - 2 * (if dist(i as int, gk) <= 3 {
                        dist(i as int, gk)
                    } else {
                        3
                    }));
                }
                let m = rec.changed_paths.len();
                let ghost pids = rec.changed_paths@;
                let mut j: usize = 0;
                proof {
                    assert(pids.skip(0) =~= pids);
                }
                while j < m
                    invariant
                        m == rec.changed_paths@.len() && pids == rec.changed_paths@,
                        e.commit_id@ == sha,
                        j <= m,
                        bump_all(cands_view(cands@), pids.skip(j as int), add, sha) == bump_all(
                            cv0,
                            pids,
                            add,
                            sha,
                        ),
                    decreases m - j,
                {
                    proof {
                        assert(pids.skip(j as int)[0] == pids[j as int]);
                        assert(pids.skip(j as int).drop_first() =~= pids.skip(j as int + 1));
                    }
                    let ghost prevv = cands_view(cands@);
                    bump_one(&mut cands, rec.changed_paths[j], add, &e.commit_id);
                    proof {
                        assert(cands_view(cands@) == bump(prevv, pids[j as int], add, sha));
                        assert(bump_all(prevv, pids.skip(j as int), add, sha) == bump_all(
                            bump(prevv, pids[j as int], add, sha),
                            pids.skip(j as int + 1),
                            add,
                            sha,
                        ));
                    }
                    j = j + 1;
                }
                proof {
                    assert(pids.skip(m as int) =~= Seq::<u32>::empty());
                    assert(cands_view(cands@) == bump_all(cv0, pids, add, sha));
                    assert(accum(*cache, lm, gk, i as int, ge, (inter0, cv0)) == accum(
                        *cache,
                        lm,
                        gk,
                        i as int + 1,
                        ge,
                        (shas_view(inter@), cands_view(cands@)),
                    ));
                }
            },
        }
        i = i + 1;
    }
    let ghost acc = accum(*cache, lm, gk, gs, ge, (Seq::empty(), Seq::empty()));
    proof {
        assert(acc == (shas_view(inter@), cands_view(cands@)));
    }
    // a file is never related to itself: drop the queried file's candidate
    let ghost cv0 = cands_view(cands@);
    let ghost all: Seq<Candidate> = cands@;
    let mut kept: Vec<Candidate> = Vec::new();
    let mut cands = cands;
    while cands.len() > 0
        invariant
            cands@.len() <= all.len(),
            cands@ == all.skip(all.len() - cands@.len()),
            cv0 == cands_view(all),
            qid == gqid,
            cands_view(kept@) == drop_self(cv0.take(all.len() - cands@.len()), gqid),
        decreases cands@.len(),
    {
        let ghost t = all.len() - cands@.len();
        let ghost pre = cands@;
        let c = cands.remove(0);
        proof {
            assert(pre == all.skip(t));
            assert(pre.remove(0) =~= all.skip(t + 1));
            assert(c == pre[0]);
            assert(pre[0] == all[t]);
            assert(cv0[t] == all[t]@);
            assert(cv0.take(t + 1).drop_last() =~= cv0.take(t));
            assert(cv0.take(t + 1).last() == cv0[t]);
        }
        let is_self = match qid {
            Some(q) => c.path_id == q,
            None => false,
        };
        if is_self {
            proof {
                assert(gqid == Some(c@.path_id));
                assert(cands_view(kept@) =~= drop_self(cv0.take(t), gqid)
                    + Seq::<CandModel>::empty());
            }
        } else {
            proof {
                assert(gqid != Some(c@.path_id));
            }
            kept.push(c);
            proof {
                assert(cands_view(kept@) =~= drop_self(cv0.take(t), gqid) + seq![cv0[t]]);
            }
        }
    }
    proof {
        assert(cv0.take(all.len() as int) =~= cv0);
    }
    let cands = kept;
    let ghost cv = cands_view(cands@);
    proof {
        assert(cv == drop_self(acc.1, gqid));
    }
    // order by weight, heavier first, path id breaking ties
    let mut pairs: Vec<(u64, Candidate)> = Vec::new();
    let ghost orig: Seq<Candidate> = cands@;
    let mut cands = cands;
    while cands.len() > 0
        invariant
            pairs@.len() + cands@.len() == orig.len(),
            cands@ == orig.skip(pairs@.len() as int),
            forall|t: int|
                0 <= t < pairs@.len() ==> (#[trigger] pairs@[t]).1 == orig[t] && pairs@[t].0
                    == cand_key(orig[t]@),
        decreases cands@.len(),
    {
        let ghost t = pairs@.len() as int;
        let c = cands.remove(0);
        proof {
            assert(orig.skip(t).remove(0) =~= orig.skip(t + 1));
            assert(c == orig[t]);
        }
        let key: u64 = (0xFFFF_FFFFu64 - (c.weight_tenths as u64)) * 0x1_0000_0000u64 + (
        c.path_id as u64);
        proof {
            assert(key == cand_key(c@));
        }
        pairs.push((key, c));
    }
    proof {
        assert(pairs@.map_values(|p: (u64, Candidate)| (p.0, p.1@)) =~= cv.map_values(
            |c: CandModel| (cand_key(c), c),
        ));
    }
    let mut sorted = sort_pairs(pairs);
    proof {
        lemma_insort_map(pairs@, |c: Candidate| c@);
        assert(pairs@.map_values(keyed_map(|c: Candidate| c@)) =~= pairs@.map_values(
            |p: (u64, Candidate)| (p.0, p.1@),
        ));
        assert(sorted@.map_values(keyed_map(|c: Candidate| c@)) == insort(
            cv.map_values(|c: CandModel| (cand_key(c), c)),
        ));
    }
    let ghost full: Seq<(u64, Candidate)> = sorted@;
    while sorted.len() > TOP_N
        invariant
            sorted@.len() <= full.len(),
            sorted@ == full.take(sorted@.len() as int),
            sorted@.len() >= TOP_N || sorted@.len() == full.len(),
        decreases sorted@.len(),
    {
        let _ = sorted.pop();
        proof {
            assert(full.take(sorted@.len() as int + 1).drop_last() =~= full.take(
                sorted@.len() as int,
            ));
        }
    }
    proof {
        assert(full.take(full.len() as int) =~= full);
        let sc = sort_cands(cv);
        assert(sc == full.map_values(keyed_map(|c: Candidate| c@)).map_values(
            |p: (u64, CandModel)| p.1,
        ));
        assert(sorted@.map_values(|p: (u64, Candidate)| p.1@) =~= truncated(sc)) by {
            assert(sorted@.len() == if full.len() > TOP_N as int {
                TOP_N as int
            } else {
                full.len() as int
            });
            assert(forall|t: int|
                0 <= t < sorted@.len() ==> #[trigger] sorted@[t] == full[t]);
        }
    }
    // resolve paths
    let ghost tsc = truncated(sort_cands(cv));
    let mut out: Vec<Candidate> = Vec::new();
    let ghost sfull: Seq<(u64, Candidate)> = sorted@;
    let mut sorted = sorted;
    while sorted.len() > 0
        invariant
            cache.wf(),
            out@.len() + sorted@.len() == sfull.len(),
            sorted@ == sfull.skip(out@.len() as int),
            tsc == sfull.map_values(|p: (u64, Candidate)| p.1@),
            cands_view(out@) == resolve_all(cache.paths_view(), tsc).take(out@.len() as int),
        decreases sorted@.len(),
    {
        let ghost t = out@.len() as int;
        let p = sorted.remove(0);
        proof {
            assert(sfull.skip(t).remove(0) =~= sfull.skip(t + 1));
            assert(p == sfull[t]);
            assert(tsc[t] == p.1@);
        }
        let mut c = p.1;
        c.path = cache.resolve_path(c.path_id);
        proof {
            assert(c@ =~= (CandModel {
                path: spec_resolve(cache.paths_view(), tsc[t].path_id as int),
                ..tsc[t]
            }));
            assert(resolve_all(cache.paths_view(), tsc)[t] == c@);
        }
        out.push(c);
        proof {
            assert(cands_view(out@) =~= resolve_all(cache.paths_view(), tsc).take(t + 1));
        }
    }
    proof {
        assert(resolve_all(cache.paths_view(), tsc).take(sfull.len() as int) =~= resolve_all(
            cache.paths_view(),
            tsc,
        ));
        let kk = spec_lower_bound(lm, lineno);
        let ws = if kk >= 3 {
            kk - 3
        } else {
            0
        };
        let we = if kk + 3 <= lm.len() {
            kk + 3
        } else {
            lm.len() as int
        };
        if forall|j: int| ws <= j < we ==> #[trigger] cache.spec_cached_commit(lm[j].sha) is None {
            lemma_select_no_hits(*cache, lm, lineno, query_path@);
            assert(cands_view(out@).len() == 0);
            assert(out@.len() == 0);
        }
    }
    (inter, out)
}

/// The ranges, in blame order, whose commit is interesting.
pub open spec fn spec_related(lines: Seq<EntryModel>, inter: Seq<Seq<u8>>) -> Seq<LineRange>
    decreases lines.len(),
{
    if lines.len() == 0 {
        Seq::empty()
    } else {
        spec_related(lines.drop_last(), inter) + (if inter.contains(lines.last().sha) {
            seq![lines.last().rb]
        } else {
            Seq::empty()
        })
    }
}

/// Collects, from a candidate file's blame, every range attributed to one of
/// the interesting commits.
pub fn related_locations(lines: &Vec<BlameEntry>, interesting: &Vec<Vec<u8>>) -> (r: Vec<
    LineRange,
>)
    ensures
        r@ == spec_related(entries_view(lines@), shas_view(interesting@)),
{
    let ghost lm = entries_view(lines@);
    let ghost im = shas_view(interesting@);
    let mut out: Vec<LineRange> = Vec::new();
    let n = lines.len();
    let mut i: usize = 0;
    while i < n
        invariant
            i <= n,
            n == lines@.len() && lm == entries_view(lines@) && im == shas_view(interesting@),
            out@ == spec_related(lm.take(i as int), im),
        decreases n - i,
    {
        proof {
            assert(lm[i as int] == lines@[i as int]@);
            assert(lm.take(i as int + 1).drop_last() =~= lm.take(i as int));
            assert(lm.take(i as int + 1).last() == lm[i as int]);
        }
        if contains_sha(interesting, &lines[i].commit_id) {
            out.push(lines[i].range_in_blamed_file);
            proof {
                assert(out@ =~= spec_related(lm.take(i as int), im) + seq![lm[i as int].rb]);
            }
        } else {
            proof {
                assert(out@ =~= spec_related(lm.take(i as int), im) + Seq::<LineRange>::empty());
            }
        }
        i = i + 1;
    }
    proof {
        assert(lm.take(n as int) =~= lm);
    }
    out
}

/// The number of lines a list of ranges covers, saturating at the largest
/// representable count.
pub open spec fn sum_sat(s: Seq<LineRange>) -> u32
    decreases s.len(),
{
    if s.len() == 0 {
        0u32
    } else {
        sat_add(sum_sat(s.drop_last()), s.last().spec_len())
    }
}

/// Hands a candidate the ranges found in its own blame; its touched-line
/// count becomes the lines they cover.
pub fn apply_locations(c: &mut Candidate, locs: Vec<LineRange>)
    ensures
        final(c)@ == (CandModel { locations: locs@, touched_lines: sum_sat(locs@), ..old(c)@ }),
{
    let mut total: u32 = 0;
    let n = locs.len();
    let mut i: usize = 0;
    while i < n
        invariant
            i <= n,
            n == locs@.len(),
            total == sum_sat(locs@.take(i as int)),
        decreases n - i,
    {
        proof {
            assert(locs@.take(i as int + 1).drop_last() =~= locs@.take(i as int));
            assert(locs@.take(i as int + 1).last() == locs@[i as int]);
        }
        let l = locs[i].len();
        total = if total > u32::MAX - l {
            u32::MAX
        } else {
            total + l
        };
        i = i + 1;
    }
    proof {
        assert(locs@.take(n as int) =~= locs@);
    }
    c.locations = locs;
    c.touched_lines = total;
    proof {
        assert(c@ =~= (CandModel {
            locations: c.locations@,
            touched_lines: total,
            ..old(c)@
        }));
    }
}

/// The largest touched-line count among the candidates.
pub open spec fn max_touched(s: Seq<CandModel>) -> u32
    decreases s.len(),
{
    if s.len() == 0 {
        0u32
    } else {
        let m = max_touched(s.drop_last());
        if s.last().touched_lines > m {
            s.last().touched_lines
        } else {
            m
        }
    }
}

/// The key of the final ordering: the normalized weight is the accumulated
/// weight times the touched-line count over a divisor all candidates share,
/// so comparing the product compares the normalized weight.
pub open spec fn score_key(c: CandModel) -> u64 {
    (u64::MAX - (c.weight_tenths as u64) * (c.touched_lines as u64)) as u64
}

/// The final order: strongest normalized weight first, earlier order kept on
/// ties.
pub open spec fn sort_by_score(s: Seq<CandModel>) -> Seq<CandModel> {
    insort(s.map_values(|c: CandModel| (score_key(c), c))).map_values(|p: (u64, CandModel)| p.1)
}

/// Candidates none of whose lines the interesting commits touch are dropped.
pub open spec fn filter_touched(s: Seq<CandModel>) -> Seq<CandModel>
    decreases s.len(),
{
    if s.len() == 0 {
        Seq::empty()
    } else {
        filter_touched(s.drop_last()) + (if s.last().touched_lines > 0 {
            seq![s.last()]
        } else {
            Seq::empty()
        })
    }
}

/// The second ranking pass: nothing at all where no candidate was touched,
/// otherwise the touched candidates ordered by normalized weight.
pub open spec fn spec_finalize(s: Seq<CandModel>) -> Seq<CandModel> {
    if max_touched(s) == 0 {
        Seq::empty()
    } else {
        filter_touched(sort_by_score(s))
    }
}

/// The second ranking pass. Returns the largest touched-line count — the
/// divisor of every reported weight — and the surviving candidates in their
/// final order.
pub fn finalize_candidates(cands: Vec<Candidate>) -> (r: (u32, Vec<Candidate>))
    ensures
        r.0 == max_touched(cands_view(cands@)),
        cands_view(r.1@) == spec_finalize(cands_view(cands@)),
{
    let ghost cv = cands_view(cands@);
    let mut m: u32 = 0;
    let n = cands.len();
    let mut i: usize = 0;
    while i < n
        invariant
            i <= n,
            n == cands@.len() && cv == cands_view(cands@),
            m == max_touched(cv.take(i as int)),
        decreases n - i,
    {
        proof {
            assert(cv.take(i as int + 1).drop_last() =~= cv.take(i as int));
            assert(cv.take(i as int + 1).last() == cv[i as int]);
            assert(cv[i as int] == cands@[i as int]@);
        }
        let t = cands[i].touched_lines;
        if t > m {
            m = t;
        }
        i = i + 1;
    }
    proof {
        assert(cv.take(n as int) =~= cv);
    }
    if m == 0 {
        let empty: Vec<Candidate> = Vec::new();
        proof {
            assert(cands_view(empty@) =~= Seq::<CandModel>::empty());
        }
        return (0, empty);
    }
    let mut pairs: Vec<(u64, Candidate)> = Vec::new();
    let ghost orig: Seq<Candidate> = cands@;
    let mut cands = cands;
    while cands.len() > 0
        invariant
            pairs@.len() + cands@.len() == orig.len(),
            cands@ == orig.skip(pairs@.len() as int),
            forall|t: int|
                0 <= t < pairs@.len() ==> (#[trigger] pairs@[t]).1 == orig[t] && pairs@[t].0
                    == score_key(orig[t]@),
        decreases cands@.len(),
    {
        let ghost t = pairs@.len() as int;
        let c = cands.remove(0);
        proof {
            assert(orig.skip(t).remove(0) =~= orig.skip(t + 1));
            assert(c == orig[t]);
        }
        proof {
            assert((c.weight_tenths as u64) * (c.touched_lines as u64) <= u64::MAX) by (nonlinear_arith)
                requires
                    c.weight_tenths as u64 <= 0xFFFF_FFFFu64,
                    c.touched_lines as u64 <= 0xFFFF_FFFFu64,
            ;
        }
        let prod: u64 = (c.weight_tenths as u64) * (c.touched_lines as u64);
        let key: u64 = u64::MAX - prod;
        proof {
            assert(key == score_key(c@));
        }
        pairs.push((key, c));
    }
    proof {
        assert(pairs@.map_values(|p: (u64, Candidate)| (p.0, p.1@)) =~= cv.map_values(
            |c: CandModel| (score_key(c), c),
        ));
    }
    let sorted = sort_pairs(pairs);
    proof {
        lemma_insort_map(pairs@, |c: Candidate| c@);
        assert(pairs@.map_values(keyed_map(|c: Candidate| c@)) =~= pairs@.map_values(
            |p: (u64, Candidate)| (p.0, p.1@),
        ));
        assert(sorted@.map_values(keyed_map(|c: Candidate| c@)) == insort(
            cv.map_values(|c: CandModel| (score_key(c), c)),
        ));
        assert(sorted@.map_values(|p: (u64, Candidate)| p.1@) =~= sort_by_score(cv));
    }
    let ghost sc = sort_by_score(cv);
    let ghost sfull: Seq<(u64, Candidate)> = sorted@;
    let mut sorted = sorted;
    let mut out: Vec<Candidate> = Vec::new();
    while sorted.len() > 0
        invariant
            sorted@.len() <= sfull.len(),
            sorted@ == sfull.skip(sfull.len() - sorted@.len()),
            sc == sfull.map_values(|p: (u64, Candidate)| p.1@),
            cands_view(out@) == filter_touched(sc.take(sfull.len() - sorted@.len())),
        decreases sorted@.len(),
    {
        let ghost t = sfull.len() - sorted@.len();
        let ghost pre = sorted@;
        let p = sorted.remove(0);
        proof {
            assert(pre == sfull.skip(t));
            assert(pre.remove(0) =~= sfull.skip(t + 1));
            assert(p == pre[0]);
            assert(pre[0] == sfull[t]);
            assert(sc[t] == sfull[t].1@);
            assert(sc.take(t + 1).drop_last() =~= sc.take(t));
            assert(sc.take(t + 1).last() == sc[t]);
        }
        let c = p.1;
        if c.touched_lines > 0 {
            out.push(c);
            proof {
                assert(cands_view(out@) =~= filter_touched(sc.take(t)) + seq![sc[t]]);
            }
        } else {
            proof {
                assert(cands_view(out@) =~= filter_touched(sc.take(t)) + Seq::<CandModel>::empty());
            }
        }
    }
    proof {
        assert(sc.take(sfull.len() as int) =~= sc);
    }
    (m, out)
}

/// A query whose whole window misses the index yields no candidates; in
/// particular an empty blame yields none.
pub proof fn lemma_select_no_hits(
    cache: PathCommitCache,
    lines: Seq<EntryModel>,
    lineno: u32,
    qpath: Seq<u8>,
)
    requires
        ({
            let k = spec_lower_bound(lines, lineno);
            let start = if k >= 3 {
                k - 3
            } else {
                0
            };
            let end = if k + 3 <= lines.len() {
                k + 3
            } else {
                lines.len() as int
            };
            forall|j: int|
                start <= j < end ==> #[trigger] cache.spec_cached_commit(lines[j].sha) is None
        }),
    ensures
        spec_select(cache, lines, lineno, qpath).1 == Seq::<CandModel>::empty(),
        spec_select(cache, lines, lineno, qpath).0 == Seq::<Seq<u8>>::empty(),
{
    if lineno < max_end(lines) {
        let k = spec_lower_bound(lines, lineno);
        let start = if k >= 3 {
            k - 3
        } else {
            0
        };
        let end = if k + 3 <= lines.len() {
            k + 3
        } else {
            lines.len() as int
        };
        lemma_lower_bound(lines, lineno);
        lemma_accum_no_hits(
            cache,
            lines,
            k,
            start,
            end,
            (Seq::<Seq<u8>>::empty(), Seq::<CandModel>::empty()),
        );
        let e = Seq::<CandModel>::empty();
        assert(drop_self(e, spec_find_path(cache.paths_view(), qpath)) =~= e);
        assert(e.map_values(|c: CandModel| (cand_key(c), c)) =~= Seq::<(u64, CandModel)>::empty());
        assert(sort_cands(e) =~= e);
        assert(truncated(e) == e);
        assert(resolve_all(cache.paths_view(), e) =~= e);
    }
}

} // verus!
