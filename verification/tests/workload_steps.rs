use rand::SeedableRng;
use rand_xoshiro::Xoshiro256Plus;
use tectonic::keyset::btree_set_key_set::BTreeSetKeySet;
use tectonic::keyset::vec_key_set::VecKeySet;
use tectonic::keyset::vec_option_key_set::VecOptionKeySet;
use tectonic::keyset::{Key, KeySet};
use tectonic::workload::{
    check_group, check_marker, delete_absent_key, delete_key, delete_range, displace, draw_index,
    insert_key, key_is_fresh, next_pool_key, pick_key, plan_markers, query_absent_key, query_range,
    sorted_key_pool, GroupCounts, KeyDistribution, Op, RangeFormat, RangeOutcome, WorkloadError,
};

fn k(s: &str) -> Key {
    s.as_bytes().to_vec()
}

fn counts() -> GroupCounts {
    GroupCounts {
        inserts: 0,
        updates: 0,
        merges: 0,
        point_deletes: 0,
        empty_point_deletes: 0,
        range_deletes: 0,
        point_queries: 0,
        empty_point_queries: 0,
        range_queries: 0,
    }
}

fn set_of(keys: &[&str]) -> VecKeySet {
    let mut s = VecKeySet::new(0);
    for key in keys {
        s.push(k(key));
    }
    s
}

#[test]
fn defaults_of_the_spec_enums() {
    assert_eq!(KeyDistribution::default(), KeyDistribution::Uniform);
    assert_eq!(RangeFormat::default(), RangeFormat::StartCount);
}

#[test]
fn group_with_too_many_point_deletes_is_refused() {
    let c = GroupCounts { point_deletes: 3, inserts: 5, ..counts() };
    assert_eq!(check_group(2, &c, false, true), Err(WorkloadError::PointDeletesExceedKeys));
    assert_eq!(check_group(3, &c, false, true), Ok(false));
}

#[test]
fn sorted_group_without_inserts_is_refused() {
    let c = GroupCounts { updates: 1, ..counts() };
    assert_eq!(check_group(4, &c, true, false), Err(WorkloadError::SortedWithoutInserts));
    assert_eq!(check_group(4, &c, false, false), Ok(false));
}

#[test]
fn empty_group_without_inserts_is_refused() {
    let c = GroupCounts { updates: 1, ..counts() };
    assert_eq!(check_group(0, &c, false, false), Err(WorkloadError::NoKeysNorInserts));
    let c = GroupCounts { inserts: 1, ..counts() };
    assert_eq!(check_group(0, &c, false, true), Ok(true));
}

#[test]
fn group_errors_come_in_order() {
    let c = GroupCounts { point_deletes: 1, ..counts() };
    assert_eq!(check_group(0, &c, true, false), Err(WorkloadError::PointDeletesExceedKeys));
    let c = counts();
    assert_eq!(check_group(0, &c, true, false), Err(WorkloadError::SortedWithoutInserts));
}

#[test]
fn marker_checks_follow_each_kind() {
    assert_eq!(check_marker(Op::Update, false, false), Err(WorkloadError::MissingSpec(Op::Update)));
    assert_eq!(check_marker(Op::Update, true, false), Err(WorkloadError::NoKeysForUpdates));
    assert_eq!(check_marker(Op::Merge, true, false), Err(WorkloadError::NoKeysForMerges));
    assert_eq!(check_marker(Op::PointQuery, false, false), Err(WorkloadError::NoKeysForPointQueries));
    assert_eq!(check_marker(Op::PointQuery, false, true), Err(WorkloadError::MissingSpec(Op::PointQuery)));
    assert_eq!(check_marker(Op::RangeQuery, true, false), Err(WorkloadError::NoKeysForRangeQueries));
    assert_eq!(check_marker(Op::RangeDelete, true, false), Err(WorkloadError::NoKeysForRangeDeletes));
    assert_eq!(check_marker(Op::PointDelete, true, false), Ok(()));
    assert_eq!(check_marker(Op::PointDeleteEmpty, true, false), Ok(()));
    assert_eq!(check_marker(Op::Insert, false, true), Err(WorkloadError::MissingSpec(Op::Insert)));
    assert_eq!(check_marker(Op::Insert, true, false), Ok(()));
}

#[test]
fn error_messages() {
    assert_eq!(
        WorkloadError::PointDeletesExceedKeys.message(),
        "Cannot have more point deletes than existing valid keys."
    );
    assert_eq!(
        WorkloadError::NoKeysNorInserts.message(),
        "Invalid workload spec. Group must have existing valid keys or have insert operations."
    );
    assert_eq!(
        WorkloadError::SortedWithoutInserts.message(),
        "Insert spec must exist if sorted config exists"
    );
    assert_eq!(
        WorkloadError::NoKeysForUpdates.message(),
        "Cannot have updates when there are no valid keys."
    );
    assert_eq!(
        WorkloadError::MissingSpec(Op::RangeDelete).message(),
        "RangeDelete marker can only appear when range_deletes is not None"
    );
}

#[test]
fn markers_count_each_kind() {
    let mut rng = Xoshiro256Plus::seed_from_u64(21);
    let c = GroupCounts {
        inserts: 3,
        updates: 2,
        merges: 1,
        point_deletes: 4,
        empty_point_deletes: 0,
        range_deletes: 1,
        point_queries: 2,
        empty_point_queries: 1,
        range_queries: 5,
    };
    let m = plan_markers(&mut rng, &c, true);
    assert_eq!(m.len(), 2 + 2 + 1 + 4 + 1 + 2 + 1 + 5);
    let count = |op: Op| m.iter().filter(|x| **x == op).count();
    assert_eq!(count(Op::Insert), 2);
    assert_eq!(count(Op::Update), 2);
    assert_eq!(count(Op::Merge), 1);
    assert_eq!(count(Op::PointDelete), 4);
    assert_eq!(count(Op::PointDeleteEmpty), 0);
    assert_eq!(count(Op::RangeDelete), 1);
    assert_eq!(count(Op::PointQuery), 2);
    assert_eq!(count(Op::EmptyPointQuery), 1);
    assert_eq!(count(Op::RangeQuery), 5);
    let m = plan_markers(&mut rng, &c, false);
    assert_eq!(m.iter().filter(|x| **x == Op::Insert).count(), 3);
}

#[test]
fn insert_writes_the_line_and_keeps_the_key() {
    let mut s = VecKeySet::new(0);
    let mut out = Vec::new();
    insert_key(&mut s, &mut out, k("key"), b"val");
    assert_eq!(out, b"I key val\n".to_vec());
    assert!(s.contains(&k("key")));
    assert_eq!(s.len(), 1);
}

#[test]
fn picked_key_is_a_valid_key() {
    let mut rng = Xoshiro256Plus::seed_from_u64(22);
    let mut s = set_of(&["c", "a", "b"]);
    for _ in 0..10 {
        let key = pick_key(&mut s, &mut rng);
        assert!([k("a"), k("b"), k("c")].contains(&key));
    }
    assert_eq!(s.get(0), Some(&k("a")));
}

#[test]
fn point_delete_takes_the_key_out_and_writes_it() {
    let mut rng = Xoshiro256Plus::seed_from_u64(23);
    let mut s = set_of(&["x"]);
    let mut out = Vec::new();
    let key = delete_key(&mut s, &mut out, &mut rng);
    assert_eq!(key, k("x"));
    assert_eq!(out, b"D x\n".to_vec());
    assert!(s.is_empty());
}

#[test]
fn absent_key_operations_skip_valid_keys() {
    let s = set_of(&["a"]);
    let mut out = Vec::new();
    assert!(!delete_absent_key(&s, &mut out, &k("a"), false));
    assert!(!query_absent_key(&s, &mut out, &k("a"), false));
    assert!(out.is_empty());
    assert!(delete_absent_key(&s, &mut out, &k("b"), false));
    assert!(query_absent_key(&s, &mut out, &k("c"), false));
    assert_eq!(out, b"D b\nP c\n".to_vec());
}

#[test]
fn range_query_names_keys_in_order() {
    let mut rng = Xoshiro256Plus::seed_from_u64(24);
    let mut s = set_of(&["d", "a", "c", "b", "e"]);
    s.sort();
    for _ in 0..20 {
        let mut out = Vec::new();
        assert_eq!(query_range(&s, &mut out, &mut rng, 2, RangeFormat::StartEnd), RangeOutcome::Written);
        assert_eq!(out.len(), 6);
        assert_eq!(&out[..2], b"S ");
        assert_eq!(out[3], b' ');
        assert_eq!(out[4], out[2] + 2);
        assert_eq!(out[5], b'\n');
    }
}

#[test]
fn range_query_of_no_keys_names_the_start_twice() {
    let mut rng = Xoshiro256Plus::seed_from_u64(25);
    let s = set_of(&["q"]);
    let mut out = Vec::new();
    assert_eq!(query_range(&s, &mut out, &mut rng, 0, RangeFormat::StartEnd), RangeOutcome::Written);
    assert_eq!(out, b"S q q\n".to_vec());
}

#[test]
fn range_delete_takes_out_the_keys_before_the_end_key() {
    let mut rng = Xoshiro256Plus::seed_from_u64(26);
    let mut s = set_of(&["a", "b", "c", "d"]);
    let mut out = Vec::new();
    assert_eq!(delete_range(&mut s, &mut out, &mut rng, 3, RangeFormat::StartEnd), RangeOutcome::Written);
    assert_eq!(out, b"R a d\n".to_vec());
    assert_eq!(s.len(), 1);
    assert_eq!(s.get(0), Some(&k("d")));
}

#[test]
fn range_delete_on_an_empty_start_slot_changes_nothing() {
    let mut rng = Xoshiro256Plus::seed_from_u64(27);
    let mut s = VecOptionKeySet::new(0);
    for i in 0..12u8 {
        s.push(vec![b'a' + i]);
    }
    s.remove(0);
    let mut outcomes = Vec::new();
    for _ in 0..200 {
        let mut out = Vec::new();
        let before = s.len();
        let r = delete_range(&mut s, &mut out, &mut rng, 0, RangeFormat::StartEnd);
        if r == RangeOutcome::EmptyStart {
            assert!(out.is_empty());
            assert_eq!(s.len(), before);
        }
        outcomes.push(r);
        if r == RangeOutcome::EmptyStart {
            break;
        }
    }
    assert!(outcomes.contains(&RangeOutcome::EmptyStart));
}

#[test]
fn range_delete_on_a_btree_set() {
    let mut rng = Xoshiro256Plus::seed_from_u64(28);
    let mut s = BTreeSetKeySet::new(0);
    for key in ["a", "b"] {
        s.push(k(key));
    }
    let mut out = Vec::new();
    assert_eq!(delete_range(&mut s, &mut out, &mut rng, 1, RangeFormat::StartEnd), RangeOutcome::Written);
    assert_eq!(out, b"R a b\n".to_vec());
    assert_eq!(s.len(), 1);
}

#[test]
fn key_pool_gives_keys_in_order() {
    let pool = sorted_key_pool(vec![k("m"), k("c"), k("x"), k("a"), k("c")]);
    assert_eq!(pool, vec![k("x"), k("m"), k("c"), k("c"), k("a")]);
    let mut pool = Some(pool);
    let mut taken = Vec::new();
    while let Some(key) = next_pool_key(&mut pool) {
        taken.push(key);
    }
    assert_eq!(taken, vec![k("a"), k("c"), k("c"), k("m"), k("x")]);
    assert_eq!(pool, Some(Vec::new()));
    let mut none: Option<Vec<Key>> = None;
    assert_eq!(next_pool_key(&mut none), None);
}

#[test]
fn displacement_is_held_within_the_pool() {
    let mut pool = vec![k("a"), k("b"), k("c"), k("d")];
    displace(&mut pool, 1, 1);
    assert_eq!(pool, vec![k("a"), k("c"), k("b"), k("d")]);
    displace(&mut pool, 1, -10);
    assert_eq!(pool, vec![k("c"), k("a"), k("b"), k("d")]);
    displace(&mut pool, 2, 100);
    assert_eq!(pool, vec![k("c"), k("a"), k("d"), k("b")]);
    displace(&mut pool, 0, 0);
    assert_eq!(pool, vec![k("c"), k("a"), k("d"), k("b")]);
}

#[test]
fn drawn_index_is_within_the_pool() {
    let mut rng = Xoshiro256Plus::seed_from_u64(29);
    for len in 1..20 {
        assert!(draw_index(&mut rng, len) < len);
    }
}

#[test]
fn absent_key_checks_can_be_skipped() {
    let s = set_of(&["a"]);
    let mut out = Vec::new();
    assert!(delete_absent_key(&s, &mut out, &k("a"), true));
    assert!(query_absent_key(&s, &mut out, &k("a"), true));
    assert_eq!(out, b"D a\nP a\n".to_vec());
}

#[test]
fn fresh_keys_are_those_not_yet_valid() {
    let s = set_of(&["a"]);
    assert!(!key_is_fresh(&s, &k("a"), false));
    assert!(key_is_fresh(&s, &k("b"), false));
    assert!(key_is_fresh(&s, &k("a"), true));
}

#[test]
fn range_query_by_start_and_count() {
    let mut rng = Xoshiro256Plus::seed_from_u64(30);
    let s = set_of(&["q"]);
    let mut out = Vec::new();
    assert_eq!(query_range(&s, &mut out, &mut rng, 0, RangeFormat::StartCount), RangeOutcome::Written);
    assert_eq!(out, b"S q 0\n".to_vec());
    let s = set_of(&["a", "b", "c", "d", "e", "f", "g", "h", "i", "j", "k", "l"]);
    let mut out = Vec::new();
    assert_eq!(query_range(&s, &mut out, &mut rng, 10, RangeFormat::StartCount), RangeOutcome::Written);
    assert_eq!(out.len(), 7);
    assert_eq!(&out[3..], b" 10\n");
}

#[test]
fn range_delete_by_start_and_count() {
    let mut rng = Xoshiro256Plus::seed_from_u64(31);
    let mut s = set_of(&["a", "b", "c", "d"]);
    let mut out = Vec::new();
    assert_eq!(delete_range(&mut s, &mut out, &mut rng, 3, RangeFormat::StartCount), RangeOutcome::Written);
    assert_eq!(out, b"R a 3\n".to_vec());
    assert_eq!(s.len(), 1);
    assert_eq!(s.get(0), Some(&k("d")));
}

#[test]
fn point_delete_on_a_vector_set_takes_the_greatest_key() {
    let mut rng = Xoshiro256Plus::seed_from_u64(32);
    let mut s = set_of(&["c", "a", "d", "b"]);
    let mut out = Vec::new();
    assert_eq!(delete_key(&mut s, &mut out, &mut rng), k("d"));
    assert_eq!(out, b"D d\n".to_vec());
}
