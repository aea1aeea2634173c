use dupfinder::files::{is_settled, File, Sig};
use dupfinder::fs::{FileHash, PARTIAL_HASH_SIZE};
use dupfinder::order::{runs_of, sort_by_rank};
use dupfinder::report::{pick_shown, PathKey};
use dupfinder::slice::SliceExt;
use dupfinder::state::{Action, ErrorEntry, Stage, State};

fn file(id: usize, size: u64, prefix: u64) -> File {
    File { id, sig: Sig { size, prefix, hash: 0 } }
}

fn file2(id: usize, size: u64, prefix: u64, hash: u64) -> File {
    File { id, sig: Sig { size, prefix, hash } }
}

fn ids(files: &[File]) -> Vec<usize> {
    files.iter().map(|f| f.id).collect()
}

fn sorted_ids(files: &[File]) -> Vec<usize> {
    let mut v = ids(files);
    v.sort();
    v
}

fn scanned() -> Vec<File> {
    vec![
        file(0, 0, 0),
        file(1, 10, 0),
        file(2, 10, 0),
        file(3, 20, 0),
        file(4, 5000, 0),
        file(5, 5000, 0),
        file(6, 7000, 0),
    ]
}

#[test]
fn sort_orders_by_size_then_hash() {
    let v = vec![file(0, 5, 9), file(1, 3, 4), file(2, 5, 1), file(3, 3, 4)];
    let s = sort_by_rank(v);
    let sigs: Vec<(u64, u64)> = s.iter().map(|f| (f.sig.size, f.sig.prefix)).collect();
    assert_eq!(sigs, vec![(3, 4), (3, 4), (5, 1), (5, 9)]);
    assert_eq!(sorted_ids(&s), vec![0, 1, 2, 3]);
}

#[test]
fn runs_split_by_signature() {
    let v = vec![file(0, 1, 1), file(1, 1, 1), file(2, 2, 1), file(3, 3, 3), file(4, 3, 3)];
    let runs = runs_of(&v);
    let r: Vec<(usize, usize)> = runs.iter().map(|r| (r.start, r.count)).collect();
    assert_eq!(r, vec![(0, 2), (2, 1), (3, 2)]);
    assert!(runs_of(&Vec::<File>::new()).is_empty());
}

#[test]
fn partition_moves_lone_records_to_the_front_in_order() {
    let mut v = vec![
        file(0, 1, 0),
        file(1, 2, 0),
        file(2, 2, 0),
        file(3, 3, 0),
        file(4, 4, 0),
        file(5, 4, 0),
        file(6, 4, 0),
        file(7, 5, 0),
    ];
    let mid = v.partition_unique_by_key();
    assert_eq!(mid, 3);
    assert_eq!(ids(&v[..mid]), vec![0, 3, 7]);
    assert_eq!(sorted_ids(&v[mid..]), vec![1, 2, 4, 5, 6]);
}

#[test]
fn partition_of_all_equal_or_all_distinct() {
    let mut same = vec![file(0, 1, 1), file(1, 1, 1), file(2, 1, 1)];
    assert_eq!(same.partition_unique_by_key(), 0);
    let mut distinct = vec![file(0, 1, 1), file(1, 2, 1), file(2, 3, 1)];
    assert_eq!(distinct.partition_unique_by_key(), 3);
    assert_eq!(ids(&distinct), vec![0, 1, 2]);
    let mut empty: Vec<File> = Vec::new();
    assert_eq!(empty.partition_unique_by_key(), 0);
}

#[test]
fn settled_signatures() {
    assert!(is_settled(Sig { size: 0, prefix: 0, hash: 0 }));
    assert!(is_settled(Sig { size: PARTIAL_HASH_SIZE, prefix: 7, hash: 0 }));
    assert!(!is_settled(Sig { size: PARTIAL_HASH_SIZE, prefix: 0, hash: 0 }));
    assert!(!is_settled(Sig { size: PARTIAL_HASH_SIZE + 1, prefix: 7, hash: 0 }));
    assert!(!is_settled(Sig { size: PARTIAL_HASH_SIZE + 1, prefix: 7, hash: 9 }));
}

#[test]
fn filter_and_collect_keeps_only_shared_unsettled_files() {
    let mut state = State::new();
    let mut files = scanned();
    state.filter_and_collect(&mut files);
    assert_eq!(ids(&state.files), vec![0, 3, 6]);
    assert_eq!(sorted_ids(&files), vec![1, 2, 4, 5]);
}

#[test]
fn empty_files_are_settled_even_when_shared() {
    let mut state = State::new();
    let mut files = vec![file(0, 0, 0), file(1, 0, 0), file(2, 9, 0), file(3, 9, 0)];
    state.filter_and_collect(&mut files);
    assert_eq!(sorted_ids(&state.files), vec![0, 1]);
    assert_eq!(sorted_ids(&files), vec![2, 3]);
}

#[test]
fn pipeline_runs_prefix_suffix_full_then_report() {
    let mut state = State::new();
    assert!(state.stage == Stage::Scan);
    let err = ErrorEntry { id: 9, full_path: false, class: 0, path_rank: 0 };
    let pending = match state.run(scanned(), vec![err]) {
        Action::Hash(h, v) => {
            assert_eq!(h, FileHash::Prefix(PARTIAL_HASH_SIZE));
            v
        }
        Action::Report => panic!("expected a round of hashing"),
    };
    assert_eq!(sorted_ids(&pending), vec![1, 2, 4, 5]);
    assert!(state.stage == Stage::Prefix);
    assert_eq!(state.errs.len(), 1);

    let hashed = vec![file(1, 10, 111), file(2, 10, 111), file(4, 5000, 222), file(5, 5000, 333)];
    match state.run(hashed, vec![]) {
        Action::Hash(h, v) => {
            assert_eq!(h, FileHash::Suffix(PARTIAL_HASH_SIZE));
            assert!(v.is_empty());
        }
        Action::Report => panic!("expected a round of hashing"),
    }
    match state.run(vec![], vec![]) {
        Action::Hash(h, v) => {
            assert_eq!(h, FileHash::Full);
            assert!(v.is_empty());
        }
        Action::Report => panic!("expected a round of hashing"),
    }
    assert!(matches!(state.run(vec![], vec![]), Action::Report));
    assert!(state.stage == Stage::Report);
    assert_eq!(sorted_ids(&state.files), vec![0, 1, 2, 3, 4, 5, 6]);
}

#[test]
fn full_round_collects_everything_it_is_given() {
    let mut state = State::new();
    state.stage = Stage::Full;
    let action = state.run(vec![file(1, 9000, 5), file(2, 9000, 5)], vec![]);
    assert!(matches!(action, Action::Report));
    assert_eq!(sorted_ids(&state.files), vec![1, 2]);
}

fn finished() -> State {
    let mut state = State::new();
    state.files = vec![
        file(6, 7000, 0),
        file(4, 5000, 222),
        file(1, 10, 111),
        file(0, 0, 0),
        file(5, 5000, 333),
        file(3, 20, 0),
        file(2, 10, 111),
    ];
    state.stage = Stage::Report;
    state
}

#[test]
fn summary_totals() {
    let mut state = finished();
    let s = state.summary();
    assert_eq!(s.total_n, 7);
    assert_eq!(s.total, 17040);
    assert_eq!(s.skipped_n, 3);
    assert_eq!(s.skipped, 7020);
    assert_eq!(s.unique_n, 5);
    assert_eq!(s.unique, 17020);
    assert_eq!(s.delete_n, 1);
    assert_eq!(s.delete, 10);
    assert_eq!(s.keep_n, 1);
    assert_eq!(s.keep, 10);
}

#[test]
fn summary_keeps_one_copy_per_group() {
    let mut state = State::new();
    state.files = vec![file(0, 100, 1), file(1, 100, 1), file(2, 100, 1), file(3, 7, 2), file(4, 7, 2)];
    let s = state.summary();
    assert_eq!((s.unique_n, s.delete_n, s.keep_n), (0, 3, 2));
    assert_eq!((s.unique, s.delete, s.keep), (0, 207, 107));
}

#[test]
fn duplicate_groups_by_wasted_bytes() {
    let mut state = finished();
    let groups = state.duplicate_groups();
    assert_eq!(groups.len(), 1);
    let g = groups[0];
    assert_eq!((g.start, g.count, g.sig, g.wasted), (1, 2, Sig { size: 10, prefix: 111, hash: 0 }, 10));
    assert_eq!(sorted_ids(&state.files[g.start..g.start + g.count]), vec![1, 2]);

    let mut state = State::new();
    state.files = vec![file(0, 100, 1), file(1, 100, 1), file(2, 100, 1), file(3, 7, 2), file(4, 7, 2), file(5, 3, 3)];
    let groups = state.duplicate_groups();
    let w: Vec<(usize, u64)> = groups.iter().map(|g| (g.count, g.wasted)).collect();
    assert_eq!(w, vec![(2, 7), (3, 200)]);
}

#[test]
fn error_groups_by_kind_then_path() {
    let mut state = State::new();
    state.errs = vec![
        ErrorEntry { id: 0, full_path: true, class: 2, path_rank: 5 },
        ErrorEntry { id: 1, full_path: false, class: 1, path_rank: 9 },
        ErrorEntry { id: 2, full_path: true, class: 2, path_rank: 1 },
    ];
    let runs = state.error_groups();
    let r: Vec<(usize, usize)> = runs.iter().map(|r| (r.start, r.count)).collect();
    assert_eq!(r, vec![(0, 1), (1, 2)]);
    let order: Vec<usize> = state.errs.iter().map(|e| e.id).collect();
    assert_eq!(order, vec![1, 2, 0]);
}

#[test]
fn shown_paths_are_the_shallowest_shortest_first() {
    let key = |depth, len, rank| PathKey { depth, len, rank };
    let keys = vec![key(2, 10, 5), key(1, 20, 3), key(1, 5, 9), key(3, 1, 0), key(1, 5, 2)];
    assert_eq!(pick_shown(&keys), vec![4, 2, 1]);
    assert_eq!(pick_shown(&keys[..2].to_vec()), vec![1, 0]);
    assert!(pick_shown(&Vec::new()).is_empty());
}

#[test]
fn duplicate_groups_add_up_to_the_summary() {
    let make = || {
        let mut state = State::new();
        state.files = vec![
            file(0, 100, 1),
            file(1, 100, 1),
            file(2, 100, 1),
            file(3, 7, 2),
            file(4, 7, 2),
            file(5, 3, 3),
            file(6, 0, 0),
            file(7, 0, 0),
        ];
        state
    };
    let groups = make().duplicate_groups();
    let summary = make().summary();
    assert_eq!(groups.iter().map(|g| g.wasted).sum::<u64>(), summary.delete);
    assert_eq!(groups.iter().map(|g| g.count as u64 - 1).sum::<u64>(), summary.delete_n);
    assert_eq!((summary.delete, summary.delete_n), (207, 4));
}

#[test]
fn hashes_are_recorded_in_their_place() {
    let s = Sig { size: 9000, prefix: 0, hash: 0 };
    let p = s.record(FileHash::Prefix(PARTIAL_HASH_SIZE), 11);
    assert_eq!(p, Sig { size: 9000, prefix: 11, hash: 0 });
    assert_eq!(p.latest_hash(), 11);
    let q = p.record(FileHash::Suffix(PARTIAL_HASH_SIZE), 22);
    assert_eq!(q, Sig { size: 9000, prefix: 11, hash: 22 });
    let r = q.record(FileHash::Full, 33);
    assert_eq!(r, Sig { size: 9000, prefix: 11, hash: 33 });
    assert_eq!(r.latest_hash(), 33);
}

#[test]
fn full_hashes_need_prefix_and_suffix_to_match() {
    let mut state = State::new();
    state.stage = Stage::Suffix;
    // 0 and 2 share size and suffix hash but not prefix hash; 1 and 3 share
    // all three.
    let found = vec![
        file2(0, 9000, 1, 50),
        file2(1, 9000, 1, 60),
        file2(2, 9000, 2, 50),
        file2(3, 9000, 1, 60),
    ];
    match state.run(found, vec![]) {
        Action::Hash(h, pending) => {
            assert_eq!(h, FileHash::Full);
            assert_eq!(sorted_ids(&pending), vec![1, 3]);
        }
        Action::Report => panic!("expected a round of hashing"),
    }
    assert_eq!(sorted_ids(&state.files), vec![0, 2]);
}

#[test]
fn partition_of_sorted_records_splits_by_group_size() {
    let mut v = sort_by_rank(vec![
        file(0, 5, 0),
        file(1, 2, 0),
        file(2, 5, 0),
        file(3, 9, 0),
        file(4, 1, 0),
        file(5, 5, 0),
        file(6, 2, 0),
    ]);
    let count = |v: &[File], f: &File| v.iter().filter(|g| g.sig == f.sig).count();
    let all = v.clone();
    let mid = v.partition_unique_by_key();
    assert_eq!(ids(&v[..mid]), vec![4, 3]);
    assert!(v[..mid].iter().all(|f| count(&all, f) == 1));
    assert!(v[mid..].iter().all(|f| count(&all, f) >= 2));
    assert_eq!(sorted_ids(&v[mid..]), vec![0, 1, 2, 5, 6]);
}

#[test]
fn partition_by_equality_of_integers() {
    let mut v: Vec<u64> = vec![1, 2, 2, 3, 4, 4, 4, 5];
    let mid = v.partition_unique();
    assert_eq!(mid, 3);
    assert_eq!(&v[..mid], &[1, 3, 5]);
    let mut rest = v[mid..].to_vec();
    rest.sort();
    assert_eq!(rest, vec![2, 2, 4, 4, 4]);
}

#[test]
fn the_latest_hash_decides_skipped_and_settled() {
    let small = Sig { size: 100, prefix: 0, hash: 5 };
    assert!(is_settled(small));
    assert!(!is_settled(Sig { size: 100, prefix: 0, hash: 0 }));
    let mut state = State::new();
    state.files = vec![file2(0, 9000, 0, 7), file2(1, 50, 0, 0), file2(2, 9000, 3, 0)];
    let s = state.summary();
    assert_eq!((s.skipped_n, s.skipped), (1, 50));
}
