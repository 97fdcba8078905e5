use rocksdb_examples::error::JobError;
use rocksdb_examples::partition::{hex_partitions, Extent, Partition, PartitionMode};
use rocksdb_examples::scan::{
    count_partition, count_prefixed, scan_and_count, scan_partition, ScanCursor,
};
use rocksdb_examples::store::{MemStore, WriteBatch};

fn store_of(keys: &[&[u8]]) -> MemStore {
    let mut store = MemStore::new();
    for key in keys {
        store.put(key.to_vec(), b"v".to_vec());
    }
    store
}

fn keys_in_order(store: &MemStore) -> Vec<Vec<u8>> {
    (0..store.len()).map(|i| store.entry(i).key.clone()).collect()
}

fn hex_key(seed: u64) -> Vec<u8> {
    let mixed = seed.wrapping_mul(0x9e37_79b9_7f4a_7c15).rotate_left(17) ^ seed;
    format!("{:016x}", mixed).into_bytes()
}

#[test]
fn put_keeps_keys_sorted_and_unique() {
    let store = store_of(&[b"30", b"10", b"20", b"10", b"", b"2"]);
    assert_eq!(store.len(), 5);
    assert_eq!(
        keys_in_order(&store),
        vec![b"".to_vec(), b"10".to_vec(), b"2".to_vec(), b"20".to_vec(), b"30".to_vec()]
    );
}

#[test]
fn put_replaces_the_value_of_a_present_key() {
    let mut store = MemStore::new();
    assert!(store.is_empty());
    store.put(b"k".to_vec(), b"one".to_vec());
    store.put(b"j".to_vec(), b"other".to_vec());
    store.put(b"k".to_vec(), b"two".to_vec());
    assert_eq!(store.len(), 2);
    assert_eq!(store.get(b"k"), Some(&b"two".to_vec()));
    assert_eq!(store.get(b"j"), Some(&b"other".to_vec()));
    assert_eq!(store.get(b"l"), None);
    assert_eq!(store.get(b""), None);
    assert!(!store.is_empty());
}

#[test]
fn seek_finds_the_first_key_not_below() {
    let store = store_of(&[b"10", b"20", b"30"]);
    assert_eq!(store.seek(b""), 0);
    assert_eq!(store.seek(b"10"), 0);
    assert_eq!(store.seek(b"100"), 1);
    assert_eq!(store.seek(b"2"), 1);
    assert_eq!(store.seek(b"20"), 1);
    assert_eq!(store.seek(b"30"), 2);
    assert_eq!(store.seek(b"31"), 3);
    assert_eq!(MemStore::new().seek(b"x"), 0);
}

#[test]
fn commit_applies_writes_in_order() {
    let mut store = store_of(&[b"b"]);
    let mut batch = WriteBatch::new();
    batch.put(b"c".to_vec(), b"1".to_vec());
    batch.put(b"a".to_vec(), b"2".to_vec());
    batch.put(b"c".to_vec(), b"3".to_vec());
    assert_eq!(batch.len(), 3);
    assert_eq!(batch.entry(1).key, b"a");
    store.commit(&batch);
    assert_eq!(store.len(), 3);
    assert_eq!(store.get(b"a"), Some(&b"2".to_vec()));
    assert_eq!(store.get(b"b"), Some(&b"v".to_vec()));
    assert_eq!(store.get(b"c"), Some(&b"3".to_vec()));
    store.commit(&WriteBatch::new());
    assert_eq!(store.len(), 3);
}

#[test]
fn scan_visits_the_members_of_a_partition() {
    let store = store_of(&[b"0a1", b"1f", b"1f00", b"1fff", b"1g", b"20", b"ff"]);
    let parts = hex_partitions(2, PartitionMode::Consecutive).unwrap();
    assert_eq!(scan_partition(&store, &parts[0x1f]), (1, 5));
    assert_eq!(count_partition(&store, &parts[0x1f]), 4);
    assert_eq!(scan_partition(&store, &parts[0x0a]), (0, 1));
    assert_eq!(scan_partition(&store, &parts[0x0b]), (1, 1));
    assert_eq!(scan_partition(&store, &parts[0xff]), (6, 7));
    let filters = hex_partitions(2, PartitionMode::IndependentPrefix).unwrap();
    assert_eq!(scan_partition(&store, &filters[0x1f]), (1, 4));
    assert_eq!(count_partition(&store, &filters[0x1f]), 3);
    assert_eq!(count_partition(&store, &filters[0x21]), 0);
}

#[test]
fn scan_of_a_hand_made_partition() {
    let store = store_of(&[b"a", b"b", b"c", b"d"]);
    let part = Partition { prefix: b"b".to_vec(), extent: Extent::Until(b"d".to_vec()) };
    assert_eq!(scan_partition(&store, &part), (1, 3));
    let backwards = Partition { prefix: b"c".to_vec(), extent: Extent::Until(b"a".to_vec()) };
    assert_eq!(scan_partition(&store, &backwards), (2, 2));
    let rest = Partition { prefix: b"bb".to_vec(), extent: Extent::ToEnd };
    assert_eq!(scan_partition(&store, &rest), (2, 4));
}

#[test]
fn partitioned_count_equals_full_iteration_count() {
    let mut store = MemStore::new();
    for seed in 0..500u64 {
        store.put(hex_key(seed), seed.to_be_bytes().to_vec());
    }
    let naive = (0..store.len()).count();
    for width in 1..=4u32 {
        assert_eq!(scan_and_count(&store, width), Ok(naive));
    }
    assert_eq!(scan_and_count(&MemStore::new(), 3), Ok(0));
}

#[test]
fn partition_counts_add_up_to_the_store() {
    let mut store = MemStore::new();
    for seed in 0..200u64 {
        store.put(hex_key(seed), Vec::new());
    }
    let parts = hex_partitions(2, PartitionMode::Consecutive).unwrap();
    let total: usize = parts.iter().map(|p| count_partition(&store, p)).sum();
    assert_eq!(total, store.len());
}

#[test]
fn count_rejects_a_bad_width() {
    let store = store_of(&[b"00"]);
    assert_eq!(scan_and_count(&store, 0), Err(JobError::InvalidWidth));
    assert_eq!(scan_and_count(&store, 16), Err(JobError::InvalidWidth));
}

#[test]
fn count_visits_keys_before_the_first_prefix() {
    let store = store_of(&[b"", &[0x01], b"/", b"0", b"00", b"ff"]);
    for width in 1..=4u32 {
        assert_eq!(scan_and_count(&store, width), Ok(6));
    }
    let parts = hex_partitions(2, PartitionMode::Consecutive).unwrap();
    assert_eq!(scan_partition(&store, &parts[0]), (0, 5));
    assert_eq!(count_partition(&store, &parts[0]), 5);
    assert_eq!(scan_partition(&store, &parts[1]), (5, 5));
    assert_eq!(scan_and_count(&store, 0), Err(JobError::InvalidWidth));
}

#[test]
fn count_visits_keys_outside_the_alphabet() {
    let store = store_of(&[b"0z", b"zz", &[0xff, 0x00], b"5:", b"a b"]);
    for width in 1..=4u32 {
        assert_eq!(scan_and_count(&store, width), Ok(5));
    }
}

#[test]
fn cursor_consumes_until_the_first_key_outside() {
    let parts = hex_partitions(1, PartitionMode::Consecutive).unwrap();
    let mut cursor = ScanCursor::new(&parts[3]);
    assert_eq!(cursor.count(), 0);
    assert!(!cursor.has_ended());
    assert_eq!(cursor.offer(b"3"), Some(true));
    assert_eq!(cursor.offer(b"30"), Some(true));
    assert_eq!(cursor.offer(b"3z"), Some(true));
    assert_eq!(cursor.count(), 3);
    assert!(!cursor.has_ended());
    assert_eq!(cursor.offer(b"4"), Some(false));
    assert!(cursor.has_ended());
    assert_eq!(cursor.offer(b"31"), Some(false));
    assert_eq!(cursor.count(), 3);
}

#[test]
fn cursor_can_be_closed_at_the_end_of_the_store() {
    let part = Partition { prefix: b"ab".to_vec(), extent: Extent::Prefix };
    let mut cursor = ScanCursor::new(&part);
    assert_eq!(cursor.offer(b"abc"), Some(true));
    cursor.close();
    assert!(cursor.has_ended());
    assert_eq!(cursor.offer(b"abd"), Some(false));
    assert_eq!(cursor.count(), 1);
    let mut other = ScanCursor::new(&part);
    assert_eq!(other.offer(b"a"), Some(false));
    assert_eq!(other.count(), 0);
}


#[test]
fn store_agrees_with_a_sorted_map() {
    let mut store = MemStore::new();
    let mut model: std::collections::BTreeMap<Vec<u8>, Vec<u8>> = std::collections::BTreeMap::new();
    let mut state: u64 = 0x2545_f491_4f6c_dd1d;
    for round in 0..600u32 {
        state ^= state << 13;
        state ^= state >> 7;
        state ^= state << 17;
        let len = (state % 4) as usize;
        let key: Vec<u8> = (0..len).map(|i| b"ab."[((state >> (8 * i)) % 3) as usize]).collect();
        let value = round.to_be_bytes().to_vec();
        store.put(key.clone(), value.clone());
        model.insert(key, value);
        assert_eq!(store.len(), model.len());
    }
    let listed: Vec<(Vec<u8>, Vec<u8>)> = (0..store.len())
        .map(|i| (store.entry(i).key.clone(), store.entry(i).value.clone()))
        .collect();
    let expected: Vec<(Vec<u8>, Vec<u8>)> =
        model.iter().map(|(k, v)| (k.clone(), v.clone())).collect();
    assert_eq!(listed, expected);
    for probe in [&b""[..], b"a", b"ab", b"b.", b"...", b"zzz", b"aa."] {
        assert_eq!(store.get(probe), model.get(probe));
        assert_eq!(store.seek(probe), model.range(..probe.to_vec()).count());
    }
}

#[test]
fn prefix_count_passes_over_keys_without_a_hex_head() {
    let store =
        store_of(&[b"", b"/x", b"00aa", b"0g", b"12", b"1234", b"AB12", b"zz", b"f", b"ff"]);
    assert_eq!(count_prefixed(&store, 1), Ok(6));
    assert_eq!(count_prefixed(&store, 2), Ok(4));
    assert_eq!(count_prefixed(&store, 3), Ok(2));
    assert_eq!(count_prefixed(&store, 4), Ok(2));
    assert_eq!(count_prefixed(&store, 5), Ok(0));
    assert_eq!(count_prefixed(&store, 0), Err(JobError::InvalidWidth));
    assert_eq!(count_prefixed(&store, 16), Err(JobError::InvalidWidth));
    assert_eq!(count_prefixed(&MemStore::new(), 2), Ok(0));
}

#[test]
fn prefix_count_equals_full_count_on_hex_keys() {
    let mut store = MemStore::new();
    for seed in 0..300u64 {
        store.put(hex_key(seed), Vec::new());
    }
    for width in 1..=4u32 {
        assert_eq!(count_prefixed(&store, width), Ok(store.len()));
        assert_eq!(count_prefixed(&store, width), scan_and_count(&store, width));
    }
}
