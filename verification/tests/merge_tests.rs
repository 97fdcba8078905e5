use rocksdb_examples::error::JobError;
use rocksdb_examples::merge::{compare_stores, merge_join, JoinCounts, MergeAction, MergeState};
use rocksdb_examples::store::MemStore;

fn store_of(keys: &[&[u8]]) -> MemStore {
    let mut store = MemStore::new();
    for key in keys {
        store.put(key.to_vec(), b"v".to_vec());
    }
    store
}

fn counts(left_only: usize, right_only: usize, intersection: usize) -> JoinCounts {
    JoinCounts { left_only, right_only, intersection }
}

fn hex_key(seed: u64) -> Vec<u8> {
    let mixed = seed.wrapping_mul(0x9e37_79b9_7f4a_7c15).rotate_left(23) ^ (seed << 7);
    format!("{:012x}", mixed & 0xffff_ffff_ffff).into_bytes()
}

fn run_machine(left: &[&[u8]], right: &[&[u8]]) -> (JoinCounts, Vec<MergeAction>) {
    let mut l = left.iter().map(|k| k.to_vec());
    let mut r = right.iter().map(|k| k.to_vec());
    let mut state = MergeState::start(l.next(), r.next());
    let mut trace = Vec::new();
    loop {
        let action = state.step().unwrap();
        trace.push(action);
        match action {
            MergeAction::Done => break,
            MergeAction::TakeLeft => assert!(state.refill_left(l.next())),
            MergeAction::TakeRight => assert!(state.refill_right(r.next())),
            MergeAction::TakeBoth => {
                assert!(state.refill_left(l.next()));
                assert!(state.refill_right(r.next()));
            }
        }
    }
    (state.counts(), trace)
}

#[test]
fn two_stores_with_a_shared_middle() {
    let left = store_of(&[b"10", b"20", b"30"]);
    let right = store_of(&[b"20", b"30", b"40"]);
    assert_eq!(compare_stores(&left, &right, None), Ok(counts(1, 1, 2)));
    for width in 1..=4u32 {
        assert_eq!(compare_stores(&left, &right, Some(width)), Ok(counts(1, 1, 2)));
    }
}

#[test]
fn empty_right_store() {
    let left = store_of(&[b"a1", b"a2", b"b3", b"c4", b"d5"]);
    let right = MemStore::new();
    assert_eq!(compare_stores(&left, &right, None), Ok(counts(5, 0, 0)));
    assert_eq!(compare_stores(&left, &right, Some(1)), Ok(counts(5, 0, 0)));
    assert_eq!(compare_stores(&left, &right, Some(2)), Ok(counts(5, 0, 0)));
}

#[test]
fn empty_left_store() {
    let left = MemStore::new();
    let right = store_of(&[b"01", b"02"]);
    assert_eq!(compare_stores(&left, &right, None), Ok(counts(0, 2, 0)));
    assert_eq!(compare_stores(&left, &right, Some(2)), Ok(counts(0, 2, 0)));
    assert_eq!(compare_stores(&left, &left, None), Ok(counts(0, 0, 0)));
    assert_eq!(compare_stores(&left, &left, Some(4)), Ok(counts(0, 0, 0)));
}

#[test]
fn disjoint_identical_and_interleaved_stores() {
    let evens = store_of(&[b"00", b"02", b"04", b"06"]);
    let odds = store_of(&[b"01", b"03", b"05"]);
    assert_eq!(compare_stores(&evens, &odds, None), Ok(counts(4, 3, 0)));
    assert_eq!(compare_stores(&evens, &odds, Some(1)), Ok(counts(4, 3, 0)));
    assert_eq!(compare_stores(&evens, &evens, None), Ok(counts(0, 0, 4)));
    assert_eq!(compare_stores(&evens, &evens, Some(2)), Ok(counts(0, 0, 4)));
    let low = store_of(&[b"00", b"01"]);
    let high = store_of(&[b"f0", b"f1", b"f2"]);
    assert_eq!(compare_stores(&low, &high, None), Ok(counts(2, 3, 0)));
    assert_eq!(compare_stores(&high, &low, Some(1)), Ok(counts(3, 2, 0)));
}

#[test]
fn a_key_and_its_extension_are_different_keys() {
    let left = store_of(&[b"ab", b"abc"]);
    let right = store_of(&[b"abc", b"abcd"]);
    assert_eq!(compare_stores(&left, &right, None), Ok(counts(1, 1, 1)));
    assert_eq!(compare_stores(&left, &right, Some(2)), Ok(counts(1, 1, 1)));
}

#[test]
fn partitioned_and_serial_comparison_agree() {
    let mut left = MemStore::new();
    let mut right = MemStore::new();
    for seed in 0..400u64 {
        if seed % 3 != 0 {
            left.put(hex_key(seed), b"l".to_vec());
        }
        if seed % 5 != 0 {
            right.put(hex_key(seed), b"r".to_vec());
        }
    }
    let serial = compare_stores(&left, &right, None).unwrap();
    assert_eq!(serial.left_only + serial.intersection, left.len());
    assert_eq!(serial.right_only + serial.intersection, right.len());
    let shared = (0..left.len()).filter(|&i| right.get(&left.entry(i).key).is_some()).count();
    assert_eq!(serial.intersection, shared);
    for width in 1..=4u32 {
        assert_eq!(compare_stores(&left, &right, Some(width)), Ok(serial));
    }
}

#[test]
fn comparison_rejects_a_bad_width() {
    let left = store_of(&[b"00"]);
    let right = store_of(&[b"!!", b"00"]);
    assert_eq!(compare_stores(&left, &right, Some(0)), Err(JobError::InvalidWidth));
    assert_eq!(compare_stores(&left, &right, Some(16)), Err(JobError::InvalidWidth));
    assert_eq!(compare_stores(&left, &right, None), Ok(counts(0, 1, 1)));
}

#[test]
fn comparison_visits_keys_before_the_first_prefix() {
    let left = store_of(&[b"", &[0x01], b"/", b"00", b"0f"]);
    let right = store_of(&[&[0x01], b"!!", b"00", b"zz"]);
    let serial = compare_stores(&left, &right, None).unwrap();
    assert_eq!(serial, counts(3, 2, 2));
    for width in 1..=4u32 {
        assert_eq!(compare_stores(&left, &right, Some(width)), Ok(serial));
        assert_eq!(compare_stores(&right, &left, Some(width)), Ok(counts(2, 3, 2)));
    }
}

#[test]
fn merge_of_ranges() {
    let left = store_of(&[b"a", b"b", b"c", b"d"]);
    let right = store_of(&[b"b", b"d", b"e"]);
    assert_eq!(merge_join(&left, (0, 4), &right, (0, 3)), counts(2, 1, 2));
    assert_eq!(merge_join(&left, (1, 3), &right, (0, 1)), counts(1, 0, 1));
    assert_eq!(merge_join(&left, (2, 2), &right, (1, 3)), counts(0, 2, 0));
    assert_eq!(merge_join(&left, (4, 4), &right, (3, 3)), counts(0, 0, 0));
}

#[test]
fn step_keeps_the_front_it_does_not_consume() {
    let (result, trace) = run_machine(&[b"10", b"20", b"30"], &[b"20", b"30", b"40"]);
    assert_eq!(result, counts(1, 1, 2));
    assert_eq!(
        trace,
        vec![
            MergeAction::TakeLeft,
            MergeAction::TakeBoth,
            MergeAction::TakeBoth,
            MergeAction::TakeRight,
            MergeAction::Done
        ]
    );
    let (result, trace) = run_machine(&[b"5"], &[b"1", b"2", b"3", b"5"]);
    assert_eq!(result, counts(0, 3, 1));
    assert_eq!(trace[..3], [MergeAction::TakeRight; 3]);
    assert_eq!(trace[3], MergeAction::TakeBoth);
}

#[test]
fn refill_is_refused_while_the_front_is_unconsumed() {
    let mut state = MergeState::start(Some(b"b".to_vec()), Some(b"a".to_vec()));
    assert!(!state.refill_left(Some(b"z".to_vec())));
    assert!(!state.refill_right(None));
    assert_eq!(state.step(), Some(MergeAction::TakeRight));
    assert!(!state.refill_left(Some(b"z".to_vec())));
    assert!(state.refill_right(Some(b"b".to_vec())));
    assert_eq!(state.step(), Some(MergeAction::TakeBoth));
    assert!(state.refill_left(None));
    assert!(state.refill_right(None));
    assert_eq!(state.step(), Some(MergeAction::Done));
    assert_eq!(state.step(), Some(MergeAction::Done));
    assert_eq!(state.counts(), counts(0, 1, 1));
}

#[test]
fn combine_adds_and_reports_overflow() {
    let a = counts(1, 2, 3);
    let b = counts(10, 20, 30);
    assert_eq!(a.combine(b), Some(counts(11, 22, 33)));
    assert_eq!(a.combine(b), b.combine(a));
    assert_eq!(a.combine(JoinCounts::zero()), Some(a));
    assert_eq!(JoinCounts::zero(), counts(0, 0, 0));
    let c = counts(7, 0, 1);
    assert_eq!(a.combine(b).unwrap().combine(c), a.combine(b.combine(c).unwrap()));
    assert_eq!(counts(usize::MAX, 0, 0).combine(counts(1, 0, 0)), None);
    assert_eq!(counts(0, usize::MAX, 0).combine(counts(0, 1, 0)), None);
    assert_eq!(counts(0, 0, usize::MAX).combine(counts(0, 0, 1)), None);
    assert_eq!(counts(usize::MAX, 0, 0).combine(counts(0, 5, 5)), Some(counts(usize::MAX, 5, 5)));
}

#[test]
fn totals_include_the_shared_keys() {
    let c = counts(1, 4, 2);
    assert_eq!(c.left_total(), Some(3));
    assert_eq!(c.right_total(), Some(6));
    assert_eq!(counts(usize::MAX, 0, 1).left_total(), None);
    assert_eq!(counts(0, usize::MAX, 1).right_total(), None);
}

#[test]
fn counts_match_set_arithmetic_on_generated_stores() {
    let mut state: u64 = 0x9e37_79b9_7f4a_7c15;
    for round in 0..40u32 {
        let mut left = MemStore::new();
        let mut right = MemStore::new();
        let mut left_keys = std::collections::BTreeSet::new();
        let mut right_keys = std::collections::BTreeSet::new();
        let size = (round % 7) * 5;
        for _ in 0..size {
            state = state.wrapping_mul(6364136223846793005).wrapping_add(1442695040888963407);
            let key = format!("{:03x}", (state >> 33) % 0x200).into_bytes();
            match (state >> 20) % 3 {
                0 => {
                    left.put(key.clone(), Vec::new());
                    left_keys.insert(key);
                }
                1 => {
                    right.put(key.clone(), Vec::new());
                    right_keys.insert(key);
                }
                _ => {
                    left.put(key.clone(), Vec::new());
                    right.put(key.clone(), Vec::new());
                    left_keys.insert(key.clone());
                    right_keys.insert(key);
                }
            }
        }
        let expected = counts(
            left_keys.difference(&right_keys).count(),
            right_keys.difference(&left_keys).count(),
            left_keys.intersection(&right_keys).count(),
        );
        assert_eq!(compare_stores(&left, &right, None), Ok(expected));
        for width in 1..=3u32 {
            assert_eq!(compare_stores(&left, &right, Some(width)), Ok(expected));
        }
        assert_eq!(expected.left_only + expected.intersection, left.len());
        assert_eq!(expected.right_only + expected.intersection, right.len());
    }
}
