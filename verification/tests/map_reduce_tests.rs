use rocksdb_examples::error::JobError;
use rocksdb_examples::job::{map_reduce, JobStats, Step};
use rocksdb_examples::map_stage::{check_value, holds_byte, map_entry, map_store, SEPARATOR};
use rocksdb_examples::reduce_stage::{
    check_key, find_last_separator, reduce_range, reduce_store, GroupReducer, DELIMITER,
};
use rocksdb_examples::round_trip::group_by_value;
use rocksdb_examples::store::{Entry, MemStore};

fn store_of(entries: &[(&[u8], &[u8])]) -> MemStore {
    let mut store = MemStore::new();
    for (key, value) in entries {
        store.put(key.to_vec(), value.to_vec());
    }
    store
}

fn dump(store: &MemStore) -> Vec<(Vec<u8>, Vec<u8>)> {
    (0..store.len()).map(|i| (store.entry(i).key.clone(), store.entry(i).value.clone())).collect()
}

fn entry(key: &[u8], value: &[u8]) -> Entry {
    Entry { key: key.to_vec(), value: value.to_vec() }
}

#[test]
fn separator_and_delimiter() {
    assert_eq!(SEPARATOR, b'.');
    assert_eq!(DELIMITER, b'|');
}

#[test]
fn map_entry_encodes_value_separator_and_hex_key() {
    assert_eq!(map_entry(&[0x01], b"aa"), Ok(entry(b"aa.01", &[0x01])));
    assert_eq!(map_entry(&[0xab, 0x01, 0xf0], b"v"), Ok(entry(b"v.ab01f0", &[0xab, 0x01, 0xf0])));
    assert_eq!(map_entry(b"01", b"aa"), Ok(entry(b"aa.3031", b"01")));
    assert_eq!(map_entry(b"", b""), Ok(entry(b".", b"")));
    assert_eq!(map_entry(b"k", "é".as_bytes()), Ok(entry(&[0xc3, 0xa9, b'.', b'6', b'b'], b"k")));
}

#[test]
fn map_entry_rejects_values_that_are_not_text() {
    assert_eq!(map_entry(b"k", &[0xff]), Err(JobError::ValueNotText));
    assert_eq!(map_entry(b"k", &[b'a', 0xc3]), Err(JobError::ValueNotText));
    assert_eq!(map_entry(b"k", &[0xc0, 0x80]), Err(JobError::ValueNotText));
    assert_eq!(map_entry(b"k", &[0xed, 0xa0, 0x80]), Err(JobError::ValueNotText));
    assert_eq!(check_value(&[0xff, b'.']), Err(JobError::ValueNotText));
    assert_eq!(check_value("text ✓".as_bytes()), Ok(()));
}

#[test]
fn map_entry_rejects_values_with_a_separator() {
    assert_eq!(map_entry(b"k", b"a.b"), Err(JobError::SeparatorInValue));
    assert_eq!(map_entry(b"k", b"."), Err(JobError::SeparatorInValue));
    assert_eq!(check_value(b"ab."), Err(JobError::SeparatorInValue));
    assert!(holds_byte(b"a.b", b'.'));
    assert!(!holds_byte(b"ab", b'.'));
    assert!(!holds_byte(b"", 0));
}

#[test]
fn last_separator_is_found() {
    assert_eq!(find_last_separator(b"aa.01"), Some(2));
    assert_eq!(find_last_separator(b"a.b.c"), Some(3));
    assert_eq!(find_last_separator(b".x"), Some(0));
    assert_eq!(find_last_separator(b"x."), Some(1));
    assert_eq!(find_last_separator(b"abc"), None);
    assert_eq!(find_last_separator(b""), None);
}

#[test]
fn keys_are_checked_for_separator_and_group_length() {
    assert_eq!(check_key(b"aa.01", 2), Ok(()));
    assert_eq!(check_key(b"aa.01", 3), Err(JobError::GroupKeyTooShort));
    assert_eq!(check_key(b"aa01", 1), Err(JobError::MalformedKey));
    assert_eq!(check_key(b"", 0), Err(JobError::MalformedKey));
    assert_eq!(check_key(b".01", 0), Ok(()));
    assert_eq!(check_key(b".01", 1), Err(JobError::GroupKeyTooShort));
    assert_eq!(check_key(b"a.b.01", 3), Ok(()));
}

#[test]
fn reducer_emits_a_group_when_the_next_one_starts() {
    let mut reducer = GroupReducer::new(1);
    assert_eq!(reducer.push(b"aa.01", &[1]), Ok(None));
    assert_eq!(reducer.push(b"aa.03", &[3]), Ok(None));
    assert_eq!(reducer.push(b"bb.02", &[2]), Ok(Some(entry(b"aa", &[1, b'|', 3]))));
    assert_eq!(reducer.push(b"c.00", b""), Ok(Some(entry(b"bb", &[2]))));
    assert_eq!(reducer.push(b"c.01", b""), Ok(None));
    assert_eq!(reducer.push(b"c.02", b"x"), Ok(None));
    assert_eq!(reducer.finish(), Some(entry(b"c", b"||x")));
    assert_eq!(reducer.finish(), None);
}

#[test]
fn reducer_is_unchanged_by_a_rejected_entry() {
    let mut reducer = GroupReducer::new(2);
    assert_eq!(reducer.push(b"ab.1", b"x"), Ok(None));
    assert_eq!(reducer.push(b"ab1", b"y"), Err(JobError::MalformedKey));
    assert_eq!(reducer.push(b"a.1", b"y"), Err(JobError::GroupKeyTooShort));
    assert_eq!(reducer.push(b"ab.2", b"z"), Ok(None));
    assert_eq!(reducer.finish(), Some(entry(b"ab", b"x|z")));
    let mut fresh = GroupReducer::new(1);
    assert_eq!(fresh.finish(), None);
    assert_eq!(fresh.push(b"nodot", b""), Err(JobError::MalformedKey));
    assert_eq!(fresh.finish(), None);
}

#[test]
fn three_entries_two_groups() {
    let mut mapped = MemStore::new();
    let mut processed = 0;
    for (key, value) in [(&[0x01u8][..], &b"aa"[..]), (&[0x02], b"bb"), (&[0x03], b"aa")] {
        let e = map_entry(key, value).unwrap();
        mapped.put(e.key, e.value);
        processed += 1;
    }
    assert_eq!(processed, 3);
    assert_eq!(
        dump(&mapped),
        vec![
            (b"aa.01".to_vec(), vec![0x01]),
            (b"aa.03".to_vec(), vec![0x03]),
            (b"bb.02".to_vec(), vec![0x02]),
        ]
    );
    for width in 1..=2u32 {
        let mut out = MemStore::new();
        assert_eq!(
            reduce_store(&mapped, &mut out, width),
            Ok(JobStats { entries_processed: 3, groups_emitted: 2 })
        );
        assert_eq!(
            dump(&out),
            vec![(b"aa".to_vec(), vec![0x01, b'|', 0x03]), (b"bb".to_vec(), vec![0x02])]
        );
    }
}

#[test]
fn map_then_reduce_through_the_job() {
    let source = store_of(&[(b"01", b"aa"), (b"02", b"bb"), (b"03", b"aa")]);
    let mut mapped = MemStore::new();
    assert_eq!(
        map_reduce(&source, &mut mapped, Step::MapStage, 1),
        Ok(JobStats { entries_processed: 3, groups_emitted: 0 })
    );
    assert_eq!(
        dump(&mapped),
        vec![
            (b"aa.3031".to_vec(), b"01".to_vec()),
            (b"aa.3033".to_vec(), b"03".to_vec()),
            (b"bb.3032".to_vec(), b"02".to_vec()),
        ]
    );
    let mut out = MemStore::new();
    assert_eq!(
        map_reduce(&mapped, &mut out, Step::ReduceStage, 2),
        Ok(JobStats { entries_processed: 3, groups_emitted: 2 })
    );
    assert_eq!(
        dump(&out),
        vec![(b"aa".to_vec(), b"01|03".to_vec()), (b"bb".to_vec(), b"02".to_vec())]
    );
}

#[test]
fn round_trip_recovers_the_keys_of_every_value() {
    let mut source = MemStore::new();
    let values: [&[u8]; 5] = [b"a0", b"a1", b"0f3", b"ffff", b"70"];
    for n in 0..240u32 {
        let key = format!("{:04x}", n.wrapping_mul(2654435761) >> 16).into_bytes();
        source.put(key, values[(n % 5) as usize].to_vec());
    }
    let distinct = {
        let mut seen: Vec<Vec<u8>> = dump(&source).into_iter().map(|e| e.1).collect();
        seen.sort();
        seen.dedup();
        seen
    };
    for width in 1..=2u32 {
        let mut mapped = MemStore::new();
        let stats = map_reduce(&source, &mut mapped, Step::MapStage, width).unwrap();
        assert_eq!(stats.entries_processed, source.len());
        assert_eq!(mapped.len(), source.len());
        let mut out = MemStore::new();
        let stats = map_reduce(&mapped, &mut out, Step::ReduceStage, width).unwrap();
        assert_eq!(stats.entries_processed, source.len());
        assert_eq!(stats.groups_emitted, distinct.len());
        assert_eq!(out.len(), distinct.len());
        for value in distinct.iter() {
            let expected: Vec<Vec<u8>> =
                dump(&source).into_iter().filter(|e| &e.1 == value).map(|e| e.0).collect();
            let joined = out.get(value).unwrap();
            let parts: Vec<Vec<u8>> = joined.split(|&b| b == b'|').map(|p| p.to_vec()).collect();
            assert_eq!(parts, expected);
        }
    }
}

#[test]
fn map_job_rejects_what_it_cannot_map() {
    let mut out = store_of(&[(b"kept", b"as is")]);
    let before = dump(&out);
    let bad_value = store_of(&[(b"00", b"ok"), (b"01", b"a.b"), (b"02", &[0xff])]);
    assert_eq!(map_store(&bad_value, &mut out, 1), Err(JobError::SeparatorInValue));
    let not_text = store_of(&[(b"00", &[0x80]), (b"01", b"a.b")]);
    assert_eq!(map_store(&not_text, &mut out, 1), Err(JobError::ValueNotText));
    let low_key = store_of(&[(b"/0", b"a.b")]);
    assert_eq!(map_store(&low_key, &mut out, 1), Err(JobError::SeparatorInValue));
    assert_eq!(map_store(&low_key, &mut out, 0), Err(JobError::InvalidWidth));
    assert_eq!(map_reduce(&bad_value, &mut out, Step::MapStage, 16), Err(JobError::InvalidWidth));
    assert_eq!(dump(&out), before);
}

#[test]
fn reduce_job_rejects_what_it_cannot_group() {
    let mut out = store_of(&[(b"kept", b"as is")]);
    let before = dump(&out);
    let no_separator = store_of(&[(b"aa.01", b"1"), (b"bb02", b"2"), (b"c.03", b"3")]);
    assert_eq!(reduce_store(&no_separator, &mut out, 1), Err(JobError::MalformedKey));
    let short_group = store_of(&[(b"aa.01", b"1"), (b"c.03", b"3"), (b"dd04", b"4")]);
    assert_eq!(reduce_store(&short_group, &mut out, 2), Err(JobError::GroupKeyTooShort));
    assert_eq!(reduce_store(&short_group, &mut out, 1), Err(JobError::MalformedKey));
    let low_key = store_of(&[(b"-01", b"1")]);
    assert_eq!(reduce_store(&low_key, &mut out, 1), Err(JobError::MalformedKey));
    assert_eq!(reduce_store(&low_key, &mut out, 0), Err(JobError::InvalidWidth));
    assert_eq!(
        map_reduce(&no_separator, &mut out, Step::ReduceStage, 1),
        Err(JobError::MalformedKey)
    );
    assert_eq!(dump(&out), before);
}

#[test]
fn jobs_write_into_a_store_that_holds_entries() {
    let source = store_of(&[(b"0a", b"x"), (b"0b", b"y")]);
    let mut out = store_of(&[(b"x.3061", b"stale"), (b"other", b"kept")]);
    assert_eq!(map_store(&source, &mut out, 2), Ok(2));
    assert_eq!(
        dump(&out),
        vec![
            (b"other".to_vec(), b"kept".to_vec()),
            (b"x.3061".to_vec(), b"0a".to_vec()),
            (b"y.3062".to_vec(), b"0b".to_vec()),
        ]
    );
}

#[test]
fn reduce_of_a_range() {
    let mapped = store_of(&[(b"aa.1", b"p"), (b"aa.2", b"q"), (b"ab.1", b"r"), (b"b.1", b"s")]);
    let batch = reduce_range(&mapped, 0, 4, 1).unwrap();
    assert_eq!(batch.len(), 3);
    assert_eq!(*batch.entry(0), entry(b"aa", b"p|q"));
    assert_eq!(*batch.entry(1), entry(b"ab", b"r"));
    assert_eq!(*batch.entry(2), entry(b"b", b"s"));
    let middle = reduce_range(&mapped, 1, 3, 1).unwrap();
    assert_eq!(middle.len(), 2);
    assert_eq!(*middle.entry(0), entry(b"aa", b"q"));
    assert_eq!(reduce_range(&mapped, 2, 2, 1).unwrap().len(), 0);
}

#[test]
fn reduce_of_a_range_stops_at_the_first_fault() {
    let mapped = store_of(&[(b"aa.1", b"p"), (b"b.1", b"q"), (b"cc", b"r"), (b"dd.1", b"s")]);
    assert_eq!(reduce_range(&mapped, 0, 4, 2).err(), Some(JobError::GroupKeyTooShort));
    assert_eq!(reduce_range(&mapped, 0, 4, 1).err(), Some(JobError::MalformedKey));
    assert_eq!(reduce_range(&mapped, 2, 4, 2).err(), Some(JobError::MalformedKey));
    assert_eq!(reduce_range(&mapped, 0, 2, 1).map(|b| b.len()).ok(), Some(2));
    assert_eq!(reduce_range(&mapped, 3, 4, 2).map(|b| b.len()).ok(), Some(1));
}

#[test]
fn a_group_is_never_cut_by_a_partition_boundary() {
    let mut mapped = MemStore::new();
    for n in 0..64u32 {
        let group = format!("{:02x}", (n / 4) * 16 + 15);
        mapped.put(format!("{}.{:08x}", group, n).into_bytes(), vec![b'a' + (n % 4) as u8]);
    }
    for width in 1..=2u32 {
        let mut out = MemStore::new();
        assert_eq!(
            reduce_store(&mapped, &mut out, width),
            Ok(JobStats { entries_processed: 64, groups_emitted: 16 })
        );
        assert_eq!(out.len(), 16);
        for i in 0..out.len() {
            assert_eq!(out.entry(i).value, b"a|b|c|d");
        }
    }
    let mut out = MemStore::new();
    assert_eq!(reduce_store(&mapped, &mut out, 3), Err(JobError::GroupKeyTooShort));
}

#[test]
fn stats_combine_adds_and_reports_overflow() {
    let a = JobStats { entries_processed: 3, groups_emitted: 2 };
    let b = JobStats { entries_processed: 10, groups_emitted: 0 };
    assert_eq!(a.combine(b), Some(JobStats { entries_processed: 13, groups_emitted: 2 }));
    assert_eq!(a.combine(b), b.combine(a));
    assert_eq!(a.combine(JobStats::zero()), Some(a));
    assert_eq!(JobStats::zero(), JobStats { entries_processed: 0, groups_emitted: 0 });
    let full = JobStats { entries_processed: usize::MAX, groups_emitted: 0 };
    assert_eq!(full.combine(b), None);
    let nine_groups = JobStats { entries_processed: 0, groups_emitted: 9 };
    assert_eq!(full.combine(nine_groups).map(|s| s.groups_emitted), Some(9));
    let many = JobStats { entries_processed: 0, groups_emitted: usize::MAX };
    assert_eq!(many.combine(a), None);
}

#[test]
fn reduce_after_map_needs_values_as_long_as_the_width() {
    let source = store_of(&[(b"01", b"a"), (b"02", b"bb"), (b"03", b"a")]);
    let mut mapped = MemStore::new();
    assert_eq!(map_store(&source, &mut mapped, 2), Ok(3));
    let mut out = MemStore::new();
    assert_eq!(reduce_store(&mapped, &mut out, 2), Err(JobError::GroupKeyTooShort));
    assert!(out.is_empty());
    assert_eq!(
        reduce_store(&mapped, &mut out, 1),
        Ok(JobStats { entries_processed: 3, groups_emitted: 2 })
    );
    assert_eq!(
        dump(&out),
        vec![(b"a".to_vec(), b"01|03".to_vec()), (b"bb".to_vec(), b"02".to_vec())]
    );
}

#[test]
fn values_before_the_first_prefix_are_grouped_too() {
    let source = store_of(&[(b"01", b"-x"), (b"02", b"bb"), (b"03", b"-x"), (b"04", b"!")]);
    let mut mapped = MemStore::new();
    assert_eq!(map_store(&source, &mut mapped, 1), Ok(4));
    let mut out = MemStore::new();
    assert_eq!(
        reduce_store(&mapped, &mut out, 1),
        Ok(JobStats { entries_processed: 4, groups_emitted: 3 })
    );
    assert_eq!(
        dump(&out),
        vec![
            (b"!".to_vec(), b"04".to_vec()),
            (b"-x".to_vec(), b"01|03".to_vec()),
            (b"bb".to_vec(), b"02".to_vec()),
        ]
    );
}

#[test]
fn three_entries_through_the_map_step() {
    let source = store_of(&[(&[0x01], b"aa"), (&[0x02], b"bb"), (&[0x03], b"aa")]);
    for width in 1..=3u32 {
        let mut mapped = MemStore::new();
        assert_eq!(
            map_reduce(&source, &mut mapped, Step::MapStage, width),
            Ok(JobStats { entries_processed: 3, groups_emitted: 0 })
        );
        assert_eq!(
            dump(&mapped),
            vec![
                (b"aa.01".to_vec(), vec![0x01]),
                (b"aa.03".to_vec(), vec![0x03]),
                (b"bb.02".to_vec(), vec![0x02]),
            ]
        );
        let mut out = MemStore::new();
        let reduced = map_reduce(&mapped, &mut out, Step::ReduceStage, width);
        if width <= 2 {
            assert_eq!(reduced, Ok(JobStats { entries_processed: 3, groups_emitted: 2 }));
            assert_eq!(
                dump(&out),
                vec![(b"aa".to_vec(), vec![0x01, b'|', 0x03]), (b"bb".to_vec(), vec![0x02])]
            );
        } else {
            assert_eq!(reduced, Err(JobError::GroupKeyTooShort));
        }
    }
}

#[test]
fn groups_sort_by_value_and_separator() {
    let source =
        store_of(&[(b"01", b"a"), (b"02", b"a-"), (b"03", b"a0"), (b"04", b"a"), (b"05", b"a-")]);
    let mut mapped = MemStore::new();
    assert_eq!(map_store(&source, &mut mapped, 1), Ok(5));
    let keys: Vec<Vec<u8>> = dump(&mapped).into_iter().map(|e| e.0).collect();
    assert_eq!(
        keys,
        vec![
            b"a-.3032".to_vec(),
            b"a-.3035".to_vec(),
            b"a.3031".to_vec(),
            b"a.3034".to_vec(),
            b"a0.3033".to_vec(),
        ]
    );
    let mut out = MemStore::new();
    assert_eq!(
        reduce_store(&mapped, &mut out, 1),
        Ok(JobStats { entries_processed: 5, groups_emitted: 3 })
    );
    assert_eq!(
        dump(&out),
        vec![
            (b"a".to_vec(), b"01|04".to_vec()),
            (b"a-".to_vec(), b"02|05".to_vec()),
            (b"a0".to_vec(), b"03".to_vec()),
        ]
    );
}

#[test]
fn a_key_that_holds_the_delimiter_is_joined_but_not_recovered() {
    let source = store_of(&[(b"0|1", b"v"), (b"02", b"v")]);
    let mut mapped = MemStore::new();
    assert_eq!(map_store(&source, &mut mapped, 1), Ok(2));
    let mut out = MemStore::new();
    assert_eq!(
        reduce_store(&mapped, &mut out, 1),
        Ok(JobStats { entries_processed: 2, groups_emitted: 1 })
    );
    let joined = out.get(b"v").unwrap().clone();
    assert_eq!(joined, b"02|0|1");
    assert_eq!(joined.split(|&b| b == b'|').count(), 3);
}

#[test]
fn grouping_by_value_in_one_call() {
    let source = store_of(&[(b"01", b"aa"), (b"02", b"bb"), (b"03", b"aa"), (b"04", b"c0")]);
    for width in 1..=2u32 {
        let (out, stats) = group_by_value(&source, width).unwrap();
        assert_eq!(stats, JobStats { entries_processed: 4, groups_emitted: 3 });
        assert_eq!(
            dump(&out),
            vec![
                (b"aa".to_vec(), b"01|03".to_vec()),
                (b"bb".to_vec(), b"02".to_vec()),
                (b"c0".to_vec(), b"04".to_vec()),
            ]
        );
    }
    let (out, stats) = group_by_value(&MemStore::new(), 3).unwrap();
    assert!(out.is_empty());
    assert_eq!(stats, JobStats::zero());
}

#[test]
fn grouping_by_value_reports_the_error_of_the_failing_step() {
    let source = store_of(&[(b"01", b"aa"), (b"02", b"b")]);
    assert_eq!(group_by_value(&source, 0).err(), Some(JobError::InvalidWidth));
    assert_eq!(group_by_value(&source, 2).err(), Some(JobError::GroupKeyTooShort));
    assert!(group_by_value(&source, 1).is_ok());
    let dotted = store_of(&[(b"01", b"a.a")]);
    assert_eq!(group_by_value(&dotted, 1).err(), Some(JobError::SeparatorInValue));
    assert_eq!(group_by_value(&source, 16).err(), Some(JobError::InvalidWidth));
    let low = store_of(&[(b"/1", b"aa"), (&[0x01], b"!a")]);
    let (out, stats) = group_by_value(&low, 2).unwrap();
    assert_eq!(stats, JobStats { entries_processed: 2, groups_emitted: 2 });
    assert_eq!(dump(&out), vec![(b"!a".to_vec(), vec![0x01]), (b"aa".to_vec(), b"/1".to_vec())]);
}
