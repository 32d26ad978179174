use cochange::LineRange;
use cochange::blame::{BlameEntry, LazyBlame};
use cochange::cache::{CachedCommit, PathCommitCache};
use cochange::index::{ChangeKind, DiffChange, index_commit};
use cochange::rank::{
    Candidate, apply_locations, finalize_candidates, related_locations, select_candidates,
};

fn sha(b: u8) -> Vec<u8> {
    vec![b; 20]
}

fn entry(start: u32, end: u32, commit: u8) -> BlameEntry {
    BlameEntry {
        range_in_blamed_file: LineRange { start, end },
        range_in_original_file: LineRange { start, end },
        commit_id: sha(commit),
    }
}

fn rng(start: u32, end: u32) -> LineRange {
    LineRange { start, end }
}

#[test]
fn cache_path_round_trip() {
    let mut c = PathCommitCache::new();
    let id_a = c.cache_path(&b"a.txt".to_vec()).unwrap();
    let id_b = c.cache_path(&b"b.txt".to_vec()).unwrap();
    assert_ne!(id_a, id_b);
    // interning again yields the same id
    assert_eq!(c.cache_path(&b"a.txt".to_vec()).unwrap(), id_a);
    // and the id resolves back to the same bytes
    assert_eq!(c.resolve_path(id_a), Some(b"a.txt".to_vec()));
    assert_eq!(c.resolve_path(id_b), Some(b"b.txt".to_vec()));
    assert_eq!(c.resolve_path(999), None);
}

#[test]
fn cache_commit_round_trip() {
    let mut c = PathCommitCache::new();
    assert!(!c.is_commit_cached(&sha(1)));
    assert!(c.cached_commit(&sha(1)).is_none());
    c.update_cached_commit(&sha(1), &CachedCommit { changed_paths: vec![2, 5, 9] });
    assert!(c.is_commit_cached(&sha(1)));
    assert_eq!(c.cached_commit(&sha(1)).unwrap().changed_paths, vec![2, 5, 9]);
    // a second store for the same sha is a no-op
    c.update_cached_commit(&sha(1), &CachedCommit { changed_paths: vec![7] });
    assert_eq!(c.cached_commit(&sha(1)).unwrap().changed_paths, vec![2, 5, 9]);
}

#[test]
fn lazy_blame_lines_sorted() {
    let mut b = LazyBlame::new(b"a.txt".to_vec());
    assert!(!b.is_ready());
    b.add_entry(entry(9, 12, 1));
    b.add_entry(entry(1, 3, 2));
    b.add_entry(entry(5, 9, 3));
    let lines = b.lines();
    let starts: Vec<u32> = lines.iter().map(|e| e.range_in_blamed_file.start).collect();
    assert_eq!(starts, vec![1, 5, 9]);
    // appending after a snapshot re-sorts on the next snapshot
    b.add_entry(entry(3, 5, 4));
    let starts2: Vec<u32> = b.lines().iter().map(|e| e.range_in_blamed_file.start).collect();
    assert_eq!(starts2, vec![1, 3, 5, 9]);
    b.mark_as_finished();
    assert!(b.is_ready());
}

fn change(kind: ChangeKind, blob: bool, path: &[u8]) -> DiffChange {
    DiffChange { kind, is_blob_or_symlink: blob, location: path.to_vec() }
}

#[test]
fn index_commit_sorted_unique() {
    let mut c = PathCommitCache::new();
    // pre-intern so ids do not arrive in sorted order
    let id_z = c.cache_path(&b"z.txt".to_vec()).unwrap();
    let changes = vec![
        change(ChangeKind::Modification, true, b"z.txt"),
        change(ChangeKind::Addition, true, b"a.txt"),
        change(ChangeKind::Deletion, true, b"gone.txt"),
        change(ChangeKind::Rewrite, true, b"a.txt"),
        change(ChangeKind::Modification, false, b"subtree"),
    ];
    index_commit(&mut c, &sha(7), &changes).unwrap();
    let id_a = c.cache_path(&b"a.txt".to_vec()).unwrap();
    let rec = c.cached_commit(&sha(7)).unwrap();
    let mut expected = vec![id_z, id_a];
    expected.sort();
    assert_eq!(rec.changed_paths, expected);
    // the deletion's path was never interned
    assert_eq!(c.cache_path(&b"gone.txt".to_vec()).unwrap(), 2);
    // indexing the same commit again changes nothing
    index_commit(&mut c, &sha(7), &vec![change(ChangeKind::Addition, true, b"q.txt")]).unwrap();
    assert_eq!(c.cached_commit(&sha(7)).unwrap().changed_paths, expected);
}

#[test]
fn select_empty_when_nothing_indexed() {
    let c = PathCommitCache::new();
    let lines = vec![entry(1, 3, 1), entry(3, 6, 2)];
    let (inter, cands) = select_candidates(&c, &lines, 2, &b"q.txt".to_vec());
    assert!(inter.is_empty());
    assert!(cands.is_empty());
}

#[test]
fn select_beyond_file_end_is_empty() {
    // an indexed commit touches another file, but the query line lies past
    // the end of the blamed file
    let mut c = PathCommitCache::new();
    let id_b = c.cache_path(&b"b.txt".to_vec()).unwrap();
    c.update_cached_commit(&sha(1), &CachedCommit { changed_paths: vec![id_b] });
    let lines = vec![entry(1, 4, 1)];
    let (_, cands) = select_candidates(&c, &lines, 100, &b"a.txt".to_vec());
    assert!(cands.is_empty());
    let (_, at_end) = select_candidates(&c, &lines, 4, &b"a.txt".to_vec());
    assert!(at_end.is_empty());
    // the last covered line still ranks
    let (_, cands2) = select_candidates(&c, &lines, 3, &b"a.txt".to_vec());
    assert_eq!(cands2.len(), 1);
    assert_eq!(cands2[0].path_id, id_b);
}

#[test]
fn select_self_only_commit_yields_nothing() {
    // a commit touching only the queried file names no related file
    let mut c = PathCommitCache::new();
    let id_a = c.cache_path(&b"a.txt".to_vec()).unwrap();
    c.update_cached_commit(&sha(0xA0), &CachedCommit { changed_paths: vec![id_a] });
    let lines = vec![entry(1, 4, 0xA0)];
    let (_, cands) = select_candidates(&c, &lines, 1, &b"a.txt".to_vec());
    assert!(cands.is_empty());
}

#[test]
fn select_empty_blame() {
    let c = PathCommitCache::new();
    let lines: Vec<BlameEntry> = vec![];
    let (_, cands) = select_candidates(&c, &lines, 9999, &b"q.txt".to_vec());
    assert!(cands.is_empty());
}

#[test]
fn select_weights_decay_with_distance() {
    let mut c = PathCommitCache::new();
    let id_b = c.cache_path(&b"b.txt".to_vec()).unwrap();
    let id_c = c.cache_path(&b"c.txt".to_vec()).unwrap();
    // the near commit touches b.txt, the far one c.txt
    c.update_cached_commit(&sha(0xB0), &CachedCommit { changed_paths: vec![id_b] });
    c.update_cached_commit(&sha(0xC0), &CachedCommit { changed_paths: vec![id_c] });
    let lines = vec![entry(1, 2, 0xB0), entry(5, 6, 0xC0)];
    let (inter, cands) = select_candidates(&c, &lines, 1, &b"q.txt".to_vec());
    assert_eq!(inter.len(), 2);
    assert_eq!(cands.len(), 2);
    // distance zero: 20 tenths; distance one: 18 tenths
    assert_eq!(cands[0].path_id, id_b);
    assert_eq!(cands[0].weight_tenths, 20);
    assert_eq!(cands[1].path_id, id_c);
    assert_eq!(cands[1].weight_tenths, 18);
    assert_eq!(cands[0].path, Some(b"b.txt".to_vec()));
}

#[test]
fn select_truncates_to_twenty() {
    let mut c = PathCommitCache::new();
    let mut ids = Vec::new();
    for i in 0..30u32 {
        let p = format!("f{:02}.txt", i).into_bytes();
        ids.push(c.cache_path(&p).unwrap());
    }
    c.update_cached_commit(&sha(0xD0), &CachedCommit { changed_paths: ids.clone() });
    let lines = vec![entry(1, 10, 0xD0)];
    let (_, cands) = select_candidates(&c, &lines, 1, &b"q.txt".to_vec());
    assert_eq!(cands.len(), 20);
    // equal weights: smaller path ids win the tie
    for (k, cand) in cands.iter().enumerate() {
        assert_eq!(cand.path_id, ids[k]);
        assert_eq!(cand.weight_tenths, 20);
    }
}

#[test]
fn select_deterministic() {
    let mut c = PathCommitCache::new();
    let id_b = c.cache_path(&b"b.txt".to_vec()).unwrap();
    c.update_cached_commit(&sha(0xB0), &CachedCommit { changed_paths: vec![id_b] });
    let lines = vec![entry(1, 2, 0xB0), entry(2, 4, 0xB0)];
    let (i1, c1) = select_candidates(&c, &lines, 2, &b"q.txt".to_vec());
    let (i2, c2) = select_candidates(&c, &lines, 2, &b"q.txt".to_vec());
    assert_eq!(i1, i2);
    assert_eq!(c1.len(), c2.len());
    for (a, b) in c1.iter().zip(c2.iter()) {
        assert_eq!(a.path_id, b.path_id);
        assert_eq!(a.weight_tenths, b.weight_tenths);
        assert_eq!(a.path, b.path);
    }
}

#[test]
fn related_locations_intersects() {
    let lines = vec![entry(1, 2, 1), entry(2, 3, 2), entry(3, 7, 1)];
    let interesting = vec![sha(1)];
    let locs = related_locations(&lines, &interesting);
    assert_eq!(locs, vec![rng(1, 2), rng(3, 7)]);
    let none = related_locations(&lines, &vec![sha(9)]);
    assert!(none.is_empty());
}

fn plain_candidate(path_id: u32, weight_tenths: u32, commit: u8) -> Candidate {
    Candidate {
        path_id,
        path: Some(format!("p{}", path_id).into_bytes()),
        locations: Vec::new(),
        touched_lines: 0,
        weight_tenths,
        commit: sha(commit),
    }
}

#[test]
fn apply_locations_counts_lines() {
    let mut c = plain_candidate(1, 20, 1);
    apply_locations(&mut c, vec![rng(2, 3), rng(10, 14)]);
    assert_eq!(c.touched_lines, 5);
    assert_eq!(c.locations, vec![rng(2, 3), rng(10, 14)]);
}

#[test]
fn finalize_orders_by_normalized_weight() {
    // one candidate touched superficially by a heavy commit, one touched
    // broadly by a lighter one
    let mut a = plain_candidate(0, 20, 1);
    apply_locations(&mut a, vec![rng(1, 2)]);
    let mut b = plain_candidate(1, 18, 2);
    apply_locations(&mut b, vec![rng(1, 9)]);
    let (max_touched, ranked) = finalize_candidates(vec![a, b]);
    assert_eq!(max_touched, 8);
    // scores: 20*1 = 20 against 18*8 = 144
    assert_eq!(ranked.len(), 2);
    assert_eq!(ranked[0].path_id, 1);
    assert_eq!(ranked[1].path_id, 0);
}

#[test]
fn finalize_drops_untouched() {
    let a = plain_candidate(0, 20, 1);
    let mut b = plain_candidate(1, 14, 2);
    apply_locations(&mut b, vec![rng(4, 6)]);
    let (max_touched, ranked) = finalize_candidates(vec![a, b]);
    assert_eq!(max_touched, 2);
    assert_eq!(ranked.len(), 1);
    assert_eq!(ranked[0].path_id, 1);
}

#[test]
fn finalize_empty_when_nothing_touched() {
    let a = plain_candidate(0, 20, 1);
    let b = plain_candidate(1, 18, 2);
    let (max_touched, ranked) = finalize_candidates(vec![a, b]);
    assert_eq!(max_touched, 0);
    assert!(ranked.is_empty());
}

#[test]
fn co_change_two_files() {
    // two files created together, then one commit touching line 2 of both
    let mut c = PathCommitCache::new();
    let id_a = c.cache_path(&b"a.txt".to_vec()).unwrap();
    let id_b = c.cache_path(&b"b.txt".to_vec()).unwrap();
    c.update_cached_commit(&sha(0xBB), &CachedCommit { changed_paths: vec![id_a, id_b] });
    // blame of a.txt: line 2 belongs to the indexed commit, the rest to an
    // unindexed one (a first commit has no parent to diff against)
    let blame_a = vec![entry(1, 2, 0x01), entry(2, 3, 0xBB), entry(3, 4, 0x01)];
    let (inter, mut cands) = select_candidates(&c, &blame_a, 2, &b"a.txt".to_vec());
    assert_eq!(inter, vec![sha(0xBB)]);
    // the queried file itself is excluded: b.txt is the one candidate
    assert_eq!(cands.len(), 1);
    assert_eq!(cands[0].path_id, id_b);
    // backfill locations from the candidate's own blame
    let blame_b = vec![entry(1, 2, 0x02), entry(2, 3, 0xBB), entry(3, 4, 0x02)];
    let locs_b = related_locations(&blame_b, &inter);
    assert_eq!(locs_b, vec![rng(2, 3)]);
    apply_locations(&mut cands[0], locs_b);
    let (max_touched, ranked) = finalize_candidates(cands);
    assert_eq!(max_touched, 1);
    assert_eq!(ranked.len(), 1);
    let b_cand = &ranked[0];
    assert_eq!(b_cand.touched_lines, 1);
    assert_eq!(b_cand.locations, vec![rng(2, 3)]);
    assert!(b_cand.weight_tenths > 0);
    assert_eq!(b_cand.path, Some(b"b.txt".to_vec()));
}
