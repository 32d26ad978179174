//! The path/commit cache. Paths are interned to dense `u32` ids; for every
//! commit the sorted list of path ids it touched is kept under the commit's
//! raw sha bytes, encoded as varints. The store is an in-memory table; any
//! ordered store could back the same contract.
use vstd::prelude::*;
use crate::varint::{dec_list, enc_list, encode_changes, decode_changes};

verus! {

/// One interned path: its bytes and, where the file was renamed, the id of
/// the record holding its newer name. Rename targets always point at older
/// records, so chains cannot cycle.
pub struct PathRecord {
    pub path: Vec<u8>,
    pub renamed_to: Option<u32>,
}

/// The stored change set of one commit.
pub struct CachedCommit {
    pub changed_paths: Vec<u32>,
}

/// A storage error. The in-memory table can only run out of ids.
#[derive(Debug, Clone, Copy, PartialEq, Eq, Structural)]
pub enum StorageError {
    CapacityExceeded,
}

/// The persistent cache: interned paths and per-commit change sets.
pub struct PathCommitCache {
    paths: Vec<PathRecord>,
    commits: Vec<(Vec<u8>, Vec<u8>)>,
}

/// The mathematical content of the path table.
pub open spec fn path_model(paths: Seq<PathRecord>) -> Seq<(Seq<u8>, Option<u32>)> {
    paths.map_values(|r: PathRecord| (r.path@, r.renamed_to))
}

/// Following the rename chain from `id` down to the canonical name.
pub open spec fn spec_resolve(m: Seq<(Seq<u8>, Option<u32>)>, id: int) -> Option<Seq<u8>>
    decreases id,
{
    if id < 0 || id >= m.len() {
        None
    } else {
        match m[id].1 {
            None => Some(m[id].0),
            Some(t) => if t < id {
                spec_resolve(m, t as int)
            } else {
                None
            },
        }
    }
}

impl PathCommitCache {
    /// The path table as a sequence of (bytes, rename target) pairs; the id
    /// of a path is its index.
    pub closed spec fn paths_view(self) -> Seq<(Seq<u8>, Option<u32>)> {
        path_model(self.paths@)
    }

    /// The commit table as a sequence of (sha bytes, encoded change list).
    pub closed spec fn commits_view(self) -> Seq<(Seq<u8>, Seq<u8>)> {
        self.commits@.map_values(|e: (Vec<u8>, Vec<u8>)| (e.0@, e.1@))
    }

    /// Well-formedness: paths unique and few enough to number, rename
    /// targets strictly older, shas unique, every stored blob a well-formed
    /// varint list.
    pub open spec fn wf(self) -> bool {
        &&& self.paths_view().len() <= u32::MAX as int
        &&& (forall|i: int, j: int|
            0 <= i < j < self.paths_view().len() ==> (#[trigger] self.paths_view()[i]).0 != (
            #[trigger] self.paths_view()[j]).0)
        &&& (forall|i: int|
            0 <= i < self.paths_view().len() ==> match (#[trigger] self.paths_view()[i]).1 {
                None => true,
                Some(t) => t < i,
            })
        &&& (forall|i: int, j: int|
            0 <= i < j < self.commits_view().len() ==> (#[trigger] self.commits_view()[i]).0 != (
            #[trigger] self.commits_view()[j]).0)
        &&& (forall|i: int|
            0 <= i < self.commits_view().len() ==> dec_list(
                (#[trigger] self.commits_view()[i]).1,
            ) is Some)
    }

    /// Whether some path record holds exactly these bytes.
    pub open spec fn has_path(self, p: Seq<u8>) -> bool {
        exists|i: int| 0 <= i < self.paths_view().len() && (#[trigger] self.paths_view()[i]).0 == p
    }

    /// Whether a commit record exists for these sha bytes.
    pub open spec fn has_commit(self, sha: Seq<u8>) -> bool {
        exists|i: int|
            0 <= i < self.commits_view().len() && (#[trigger] self.commits_view()[i]).0 == sha
    }

    /// The decoded change list stored for a sha, where one is stored.
    pub open spec fn spec_cached_commit(self, sha: Seq<u8>) -> Option<Seq<u32>> {
        if self.has_commit(sha) {
            let i = choose|i: int|
                0 <= i < self.commits_view().len() && (#[trigger] self.commits_view()[i]).0 == sha;
            dec_list(self.commits_view()[i].1)
        } else {
            None
        }
    }

    pub fn new() -> (r: Self)
        ensures
            r.wf(),
            r.paths_view() == Seq::<(Seq<u8>, Option<u32>)>::empty(),
            r.commits_view() == Seq::<(Seq<u8>, Seq<u8>)>::empty(),
    {
        let r = PathCommitCache { paths: Vec::new(), commits: Vec::new() };
        proof {
            assert(r.paths_view() =~= Seq::<(Seq<u8>, Option<u32>)>::empty());
            assert(r.commits_view() =~= Seq::<(Seq<u8>, Seq<u8>)>::empty());
        }
        r
    }

    /// Interns a path: the id it already has, or a fresh one.
    pub fn cache_path(&mut self, path: &Vec<u8>) -> (r: Result<u32, StorageError>)
        requires
            old(self).wf(),
        ensures
            final(self).wf(),
            final(self).commits_view() == old(self).commits_view(),
            match r {
                Ok(id) => {
                    &&& if old(self).has_path(path@) {
                        &&& final(self).paths_view() == old(self).paths_view()
                        &&& id < old(self).paths_view().len()
                        &&& final(self).paths_view()[id as int].0 == path@
                    } else {
                        &&& final(self).paths_view() == old(self).paths_view().push(
                            (path@, None),
                        )
                        &&& id == old(self).paths_view().len()
                    }
                },
                Err(e) => {
                    &&& *final(self) == *old(self)
                    &&& !old(self).has_path(path@)
                    &&& old(self).paths_view().len() == u32::MAX as int
                },
            },
    {
        let n = self.paths.len();
        let mut i: usize = 0;
        while i < n
            invariant
                *self == *old(self),
                self.wf(),
                n == self.paths@.len(),
                i <= n,
                forall|k: int| 0 <= k < i ==> (#[trigger] self.paths_view()[k]).0 != path@,
            decreases n - i,
        {
            if crate::bytes_eq(&self.paths[i].path, path) {
                assert(self.paths_view()[i as int].0 == path@);
                return Ok(i as u32);
            }
            i = i + 1;
        }
        assert(!self.has_path(path@));
        if n == u32::MAX as usize {
            return Err(StorageError::CapacityExceeded);
        }
        let id = n as u32;
        let rec = PathRecord { path: crate::clone_bytes(path), renamed_to: None };
        let ghost oldv = self.paths_view();
        self.paths.push(rec);
        proof {
            assert(self.paths_view() =~= oldv.push((path@, None)));
            assert(self.commits_view() =~= old(self).commits_view());
        }
        Ok(id)
    }

    /// The id a path is interned under, where it is interned at all; the
    /// table is left untouched.
    pub fn find_path_id(&self, path: &Vec<u8>) -> (r: Option<u32>)
        requires
            self.wf(),
        ensures
            r == spec_find_path(self.paths_view(), path@),
    {
        proof {
            lemma_path_index_of(self.paths_view(), path@);
        }
        let n = self.paths.len();
        let mut i: usize = 0;
        while i < n
            invariant
                self.wf(),
                n == self.paths@.len(),
                i <= n,
                forall|k: int| 0 <= k < i ==> (#[trigger] self.paths_view()[k]).0 != path@,
            decreases n - i,
        {
            if crate::bytes_eq(&self.paths[i].path, path) {
                proof {
                    assert(self.paths_view()[i as int].0 == path@);
                    lemma_path_index_of(self.paths_view(), path@);
                    let p = path_index_of(self.paths_view(), path@);
                    assert(p == i as int) by {
                        if p < i as int {
                            assert(self.paths_view()[p].0 != path@);
                        }
                        if (i as int) < p {
                            assert(self.paths_view()[i as int].0 != path@);
                        }
                    }
                }
                return Some(i as u32);
            }
            i = i + 1;
        }
        proof {
            lemma_path_index_of(self.paths_view(), path@);
            let p = path_index_of(self.paths_view(), path@);
            assert(p == self.paths_view().len()) by {
                if p < self.paths_view().len() {
                    assert(self.paths_view()[p].0 != path@);
                    assert(self.paths_view()[p].0 == path@);
                }
            }
        }
        None
    }

    /// Recording a rename is allowed to be a no-op: ranking does not depend
    /// on it, and `resolve_path` already follows whatever chain is present.
    pub fn cache_rename(&mut self, old_path: &Vec<u8>, new_id: u32)
        ensures
            *final(self) == *old(self),
    {
        let _ = old_path;
        let _ = new_id;
    }

    /// The canonical bytes of an interned path, following renames.
    pub fn resolve_path(&self, path_id: u32) -> (r: Option<Vec<u8>>)
        requires
            self.wf(),
        ensures
            match r {
                None => spec_resolve(self.paths_view(), path_id as int) is None,
                Some(p) => spec_resolve(self.paths_view(), path_id as int) == Some(p@),
            },
    {
        let mut cur: u32 = path_id;
        loop
            invariant
                self.wf(),
                spec_resolve(self.paths_view(), path_id as int) == spec_resolve(
                    self.paths_view(),
                    cur as int,
                ),
            decreases cur,
        {
            if cur as usize >= self.paths.len() {
                return None;
            }
            match self.paths[cur as usize].renamed_to {
                None => {
                    return Some(crate::clone_bytes(&self.paths[cur as usize].path));
                },
                Some(t) => {
                    assert(self.paths_view()[cur as int].1 == Some(t));
                    if t < cur {
                        cur = t;
                    } else {
                        return None;
                    }
                },
            }
        }
    }

    /// The change set stored for a commit, decoded, or `None` where the
    /// commit has not been indexed.
    pub fn cached_commit(&self, sha: &Vec<u8>) -> (r: Option<CachedCommit>)
        requires
            self.wf(),
        ensures
            match r {
                None => self.spec_cached_commit(sha@) is None,
                Some(c) => self.spec_cached_commit(sha@) == Some(c.changed_paths@),
            },
    {
        let n = self.commits.len();
        let mut i: usize = 0;
        while i < n
            invariant
                self.wf(),
                n == self.commits@.len(),
                i <= n,
                forall|k: int| 0 <= k < i ==> (#[trigger] self.commits_view()[k]).0 != sha@,
            decreases n - i,
        {
            if crate::bytes_eq(&self.commits[i].0, sha) {
                assert(self.commits_view()[i as int].0 == sha@);
                let blob = &self.commits[i].1;
                match decode_changes(blob) {
                    Some(l) => {
                        return Some(CachedCommit { changed_paths: l });
                    },
                    None => {
                        assert(false);
                        return None;
                    },
                }
            }
            i = i + 1;
        }
        assert(!self.has_commit(sha@));
        None
    }

    /// Stores the change set of a commit; a second store for the same sha is
    /// a no-op.
    pub fn update_cached_commit(&mut self, sha: &Vec<u8>, commit: &CachedCommit)
        requires
            old(self).wf(),
        ensures
            final(self).wf(),
            final(self).paths_view() == old(self).paths_view(),
            if old(self).has_commit(sha@) {
                final(self).commits_view() == old(self).commits_view()
            } else {
                final(self).commits_view() == old(self).commits_view().push(
                    (sha@, enc_list(commit.changed_paths@)),
                )
            },
            final(self).spec_cached_commit(sha@) == if old(self).has_commit(sha@) {
                old(self).spec_cached_commit(sha@)
            } else {
                Some(commit.changed_paths@)
            },
    {
        if self.is_commit_cached(sha) {
            return;
        }
        let blob = encode_changes(&commit.changed_paths);
        let ghost oldv = self.commits_view();
        self.commits.push((crate::clone_bytes(sha), blob));
        proof {
            crate::varint::lemma_enc_dec_round_trip(commit.changed_paths@);
            assert(self.commits_view() =~= oldv.push((sha@, enc_list(commit.changed_paths@))));
            assert(self.paths_view() =~= old(self).paths_view());
            let n = oldv.len() as int;
            assert(self.commits_view()[n].0 == sha@);
            assert(self.has_commit(sha@));
            let i = choose|i: int|
                0 <= i < self.commits_view().len() && (#[trigger] self.commits_view()[i]).0
                    == sha@;
            assert(i == n);
            assert(self.spec_cached_commit(sha@) == Some(commit.changed_paths@));
        }
    }

    /// Whether a commit has already been indexed.
    pub fn is_commit_cached(&self, sha: &Vec<u8>) -> (r: bool)
        requires
            self.wf(),
        ensures
            r == self.has_commit(sha@),
    {
        let n = self.commits.len();
        let mut i: usize = 0;
        while i < n
            invariant
                n == self.commits@.len(),
                i <= n,
                forall|k: int| 0 <= k < i ==> (#[trigger] self.commits_view()[k]).0 != sha@,
            decreases n - i,
        {
            if crate::bytes_eq(&self.commits[i].0, sha) {
                assert(self.commits_view()[i as int].0 == sha@);
                return true;
            }
            i = i + 1;
        }
        false
    }
}

/// The first record holding these path bytes, or the table's length.
pub open spec fn path_index_of(m: Seq<(Seq<u8>, Option<u32>)>, p: Seq<u8>) -> int
    decreases m.len(),
{
    if m.len() == 0 {
        0
    } else if m[0].0 == p {
        0
    } else {
        1 + path_index_of(m.drop_first(), p)
    }
}

pub proof fn lemma_path_index_of(m: Seq<(Seq<u8>, Option<u32>)>, p: Seq<u8>)
    ensures
        0 <= path_index_of(m, p) <= m.len(),
        forall|k: int| 0 <= k < path_index_of(m, p) ==> (#[trigger] m[k]).0 != p,
        path_index_of(m, p) < m.len() ==> m[path_index_of(m, p)].0 == p,
    decreases m.len(),
{
    if m.len() == 0 {
    } else if m[0].0 == p {
    } else {
        lemma_path_index_of(m.drop_first(), p);
        assert forall|k: int| 0 <= k < path_index_of(m, p) implies (#[trigger] m[k]).0 != p by {
            if k >= 1 {
                assert(m.drop_first()[k - 1] == m[k]);
                assert(m.drop_first()[k - 1].0 != p);
            }
        }
    }
}

/// The id a path already has, without interning it.
pub open spec fn spec_find_path(m: Seq<(Seq<u8>, Option<u32>)>, p: Seq<u8>) -> Option<u32> {
    let i = path_index_of(m, p);
    if i < m.len() {
        Some(i as u32)
    } else {
        None
    }
}

/// What interning does to the path table: the id the path already has, or
/// the table grown by one fresh record.
pub open spec fn spec_intern(m: Seq<(Seq<u8>, Option<u32>)>, p: Seq<u8>) -> (
    Seq<(Seq<u8>, Option<u32>)>,
    u32,
) {
    let i = path_index_of(m, p);
    if i < m.len() {
        (m, i as u32)
    } else {
        (m.push((p, None)), m.len() as u32)
    }
}

/// `cache_path`'s contract, under uniqueness of paths, pins its effect to
/// `spec_intern`.
pub proof fn lemma_intern_matches(
    m: Seq<(Seq<u8>, Option<u32>)>,
    m2: Seq<(Seq<u8>, Option<u32>)>,
    p: Seq<u8>,
    id: u32,
)
    requires
        forall|i: int, j: int| 0 <= i < j < m.len() ==> (#[trigger] m[i]).0 != (#[trigger] m[j]).0,
        if exists|i: int| 0 <= i < m.len() && (#[trigger] m[i]).0 == p {
            m2 == m && id < m.len() && m2[id as int].0 == p
        } else {
            m2 == m.push((p, None)) && id == m.len()
        },
    ensures
        (m2, id) == spec_intern(m, p),
{
    lemma_path_index_of(m, p);
    let k = path_index_of(m, p);
    if exists|i: int| 0 <= i < m.len() && (#[trigger] m[i]).0 == p {
        let w = choose|i: int| 0 <= i < m.len() && (#[trigger] m[i]).0 == p;
        assert(k < m.len()) by {
            if k == m.len() {
                assert(m[w].0 != p);
            }
        }
        assert(id == k) by {
            if (id as int) < k {
                assert(m[id as int].0 != p);
            }
            if (id as int) > k {
                assert(m[k].0 == p && m[id as int].0 == p);
            }
        }
    } else {
        assert(k == m.len()) by {
            if k < m.len() {
                assert(m[k].0 == p);
            }
        }
    }
}

/// Interning is inverted by resolution: the id `spec_intern` hands out for a
/// path resolves back to exactly that path's bytes, as long as no rename was
/// recorded for it. Together with `cache_path`'s and `resolve_path`'s
/// contracts this says `resolve_path(cache_path(p)) == p`.
pub proof fn lemma_intern_path_resolves(m: Seq<(Seq<u8>, Option<u32>)>, p: Seq<u8>)
    requires
        m.len() <= u32::MAX as int,
        forall|i: int| 0 <= i < m.len() && (#[trigger] m[i]).0 == p ==> m[i].1 is None,
    ensures
        ({
            let (m2, id) = spec_intern(m, p);
            spec_resolve(m2, id as int) == Some(p)
        }),
{
    lemma_path_index_of(m, p);
    let k = path_index_of(m, p);
    if k < m.len() {
        assert(m[k].0 == p);
        assert(m[k].1 is None);
    } else {
        let m2 = m.push((p, None));
        assert(m2[m.len() as int] == (p, Option::<u32>::None));
    }
}

} // verus!
