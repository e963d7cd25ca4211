use compact_set::CompactSet;
use proptest::arbitrary::any;
use proptest::collection;
use proptest::test_runner::{Config, TestCaseError, TestRunner};
use std::ops::Range;

fn set_of(ranges: &[Range<u32>]) -> CompactSet {
    let mut set = CompactSet::new();
    for r in ranges {
        set.insert(r.clone());
    }
    set
}

fn runner() -> TestRunner {
    TestRunner::new(Config {
        cases: 512,
        failure_persistence: None,
        ..Config::default()
    })
}

/// The points of a set whose runs all lie below 256, one flag per point.
fn points(set: &CompactSet) -> Vec<bool> {
    let mut flags = vec![false; 256];
    for (a, b) in set.entries() {
        for x in a..b {
            flags[x as usize] = true;
        }
    }
    flags
}

#[test]
fn new_set_is_empty_and_valid() {
    let set = CompactSet::new();
    assert!(set.entries().is_empty());
    assert_eq!(set.validate(), Ok(()));
    assert!(!set.contains(0..1));
}

#[test]
fn inserting_adjacent_ranges_merges_them() {
    let set = set_of(&[0..4, 4..8]);
    assert_eq!(set.entries(), vec![(0, 8)]);
    assert_eq!(set.validate(), Ok(()));
}

#[test]
fn inserting_adjacent_ranges_in_reverse_order_merges_them() {
    let set = set_of(&[4..8, 0..4]);
    assert_eq!(set.entries(), vec![(0, 8)]);
}

#[test]
fn deleting_inside_a_range_splits_it() {
    let mut set = set_of(&[0..10]);
    set.delete(3..6);
    assert_eq!(set.entries(), vec![(0, 3), (6, 10)]);
    assert_eq!(set.validate(), Ok(()));
}

#[test]
fn query_straddling_a_gap_is_not_contained() {
    let set = set_of(&[0..4, 5..9]);
    assert_eq!(set.entries(), vec![(0, 4), (5, 9)]);
    assert!(!set.contains(2..7));
    assert!(set.contains(2..3));
    assert!(set.contains(6..7));
}

#[test]
fn contains_checks_both_bounds() {
    let set = set_of(&[2..6]);
    assert!(set.contains(2..6));
    assert!(set.contains(3..5));
    assert!(!set.contains(1..6));
    assert!(!set.contains(2..7));
    assert!(!set.contains(7..9));
}

#[test]
fn empty_insert_is_a_no_op() {
    let mut set = set_of(&[0..4]);
    set.insert(6..6);
    set.insert(9..7);
    assert_eq!(set.entries(), vec![(0, 4)]);
}

#[test]
fn empty_insert_into_empty_set_leaves_it_empty() {
    let mut set = CompactSet::new();
    set.insert(5..3);
    assert!(set.entries().is_empty());
    assert!(!set.contains(5..3));
}

#[test]
fn covered_insert_is_a_no_op() {
    let mut set = set_of(&[0..10, 20..30]);
    set.insert(2..8);
    assert_eq!(set.entries(), vec![(0, 10), (20, 30)]);
}

#[test]
fn insert_bridges_several_runs() {
    let mut set = set_of(&[0..2, 4..6, 8..10, 12..14, 20..22]);
    set.insert(1..13);
    assert_eq!(set.entries(), vec![(0, 14), (20, 22)]);
    assert_eq!(set.validate(), Ok(()));
}

#[test]
fn insert_touching_both_neighbours_merges_all_three() {
    let mut set = set_of(&[0..3, 7..9]);
    set.insert(3..7);
    assert_eq!(set.entries(), vec![(0, 9)]);
}

#[test]
fn insert_with_gap_keeps_runs_apart() {
    let set = set_of(&[10..12, 0..3, 5..7]);
    assert_eq!(set.entries(), vec![(0, 3), (5, 7), (10, 12)]);
}

#[test]
fn insert_extends_a_run_on_either_side() {
    let mut set = set_of(&[5..10]);
    set.insert(2..6);
    assert_eq!(set.entries(), vec![(2, 10)]);
    set.insert(9..15);
    assert_eq!(set.entries(), vec![(2, 15)]);
}

#[test]
fn empty_delete_is_a_no_op() {
    let mut set = set_of(&[0..10]);
    set.delete(5..5);
    set.delete(8..2);
    assert_eq!(set.entries(), vec![(0, 10)]);
}

#[test]
fn delete_of_exact_bounds_removes_the_run() {
    let mut set = set_of(&[0..4, 6..9]);
    set.delete(6..9);
    assert_eq!(set.entries(), vec![(0, 4)]);
}

#[test]
fn delete_truncates_on_the_left_and_on_the_right() {
    let mut set = set_of(&[0..10, 20..30]);
    set.delete(5..25);
    assert_eq!(set.entries(), vec![(0, 5), (25, 30)]);
    set.delete(0..2);
    assert_eq!(set.entries(), vec![(2, 5), (25, 30)]);
    set.delete(28..40);
    assert_eq!(set.entries(), vec![(2, 5), (25, 28)]);
}

#[test]
fn delete_across_several_runs() {
    let mut set = set_of(&[0..2, 4..6, 8..10, 12..14]);
    set.delete(1..13);
    assert_eq!(set.entries(), vec![(0, 1), (13, 14)]);
    set.delete(0..100);
    assert!(set.entries().is_empty());
}

#[test]
fn delete_outside_all_runs_changes_nothing() {
    let mut set = set_of(&[0..4, 10..14]);
    set.delete(5..9);
    assert_eq!(set.entries(), vec![(0, 4), (10, 14)]);
}

#[test]
fn ranges_at_the_top_of_u32() {
    let mut set = set_of(&[u32::MAX - 4..u32::MAX, 0..1]);
    set.insert(u32::MAX - 10..u32::MAX - 4);
    assert_eq!(set.entries(), vec![(0, 1), (u32::MAX - 10, u32::MAX)]);
    set.insert(1..u32::MAX);
    assert_eq!(set.entries(), vec![(0, u32::MAX)]);
    assert!(set.contains(0..u32::MAX));
    set.delete(1..u32::MAX);
    assert_eq!(set.entries(), vec![(0, 1)]);
}

#[test]
fn inserting_twice_equals_inserting_once() {
    let mut once = set_of(&[0..3, 8..12]);
    once.insert(2..9);
    let mut twice = set_of(&[0..3, 8..12]);
    twice.insert(2..9);
    twice.insert(2..9);
    assert_eq!(once.entries(), twice.entries());
    assert_eq!(twice.entries(), vec![(0, 12)]);
}

#[test]
fn inserted_range_is_contained() {
    let mut set = set_of(&[0..2, 5..6]);
    set.insert(3..5);
    assert!(set.contains(3..5));
    assert_eq!(set.entries(), vec![(0, 2), (3, 6)]);
}

#[test]
fn sub_ranges_of_a_deleted_range_are_not_contained() {
    let mut set = set_of(&[0..20]);
    set.delete(5..15);
    assert!(!set.contains(5..15));
    assert!(!set.contains(6..9));
    assert!(!set.contains(14..15));
    assert!(set.contains(0..5));
}

#[test]
fn insert_then_delete_from_empty_gives_empty() {
    let mut set = CompactSet::new();
    set.insert(7..19);
    set.delete(7..19);
    assert!(set.entries().is_empty());
}

#[test]
fn random_insertions_stay_valid() {
    let ranges = collection::vec((0..255u32, 0..255u32), 0..20);
    runner()
        .run(&ranges, |ranges| {
            let mut set = CompactSet::new();
            for (a, b) in ranges {
                set.insert(a..b);
            }
            match set.validate() {
                Ok(()) => Ok(()),
                Err(e) => Err(TestCaseError::fail(format!("{:?}: {:?}", e, set.entries()))),
            }
        })
        .unwrap();
}

#[test]
fn random_operation_sequences_stay_valid_and_exact() {
    let ops = collection::vec((any::<bool>(), 0..255u32, 0..255u32), 0..10);
    runner()
        .run(&ops, |ops| {
            let mut set = CompactSet::new();
            let mut expected = vec![false; 256];
            for (is_insert, a, b) in ops {
                if is_insert {
                    set.insert(a..b);
                } else {
                    set.delete(a..b);
                }
                for x in a..b {
                    expected[x as usize] = is_insert;
                }
                if let Err(e) = set.validate() {
                    return Err(TestCaseError::fail(format!("{:?}: {:?}", e, set.entries())));
                }
                if points(&set) != expected {
                    return Err(TestCaseError::fail(format!("wrong points: {:?}", set.entries())));
                }
            }
            Ok(())
        })
        .unwrap();
}

#[test]
fn random_insert_is_contained_and_idempotent() {
    let cases = (collection::vec((0..255u32, 0..255u32), 0..10), 0..255u32, 0..255u32);
    runner()
        .run(&cases, |(start, a, b)| {
            let mut set = CompactSet::new();
            for (x, y) in start {
                set.insert(x..y);
            }
            set.insert(a..b);
            let once = set.entries();
            if a < b && !set.contains(a..b) {
                return Err(TestCaseError::fail(format!("{}..{} not contained", a, b)));
            }
            set.insert(a..b);
            if set.entries() != once {
                return Err(TestCaseError::fail("second insert changed the set"));
            }
            Ok(())
        })
        .unwrap();
}
