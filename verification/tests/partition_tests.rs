use rocksdb_examples::error::{ErrorKind, JobError};
use rocksdb_examples::keys::{compare_keys, has_prefix, keys_equal, KeyOrder};
use rocksdb_examples::partition::{
    alphabet_is_valid, count_prefixes, hex_partitions, prefix_partitions, Extent, Partition,
    PartitionMode, MAX_PARTITIONS,
};
use rocksdb_examples::utils::{
    generate_consecutive_hex_strings, generate_random_hex_string, hex_string_of_values,
};

fn upper_of(part: &Partition) -> Option<Vec<u8>> {
    match &part.extent {
        Extent::Until(bound) | Extent::Before(bound) => Some(bound.clone()),
        _ => None,
    }
}

#[test]
fn compare_orders_bytes_lexicographically() {
    assert_eq!(compare_keys(b"", b""), KeyOrder::Equal);
    assert_eq!(compare_keys(b"", b"a"), KeyOrder::Less);
    assert_eq!(compare_keys(b"a", b""), KeyOrder::Greater);
    assert_eq!(compare_keys(b"ab", b"abc"), KeyOrder::Less);
    assert_eq!(compare_keys(b"abd", b"abc"), KeyOrder::Greater);
    assert_eq!(compare_keys(b"b", b"abc"), KeyOrder::Greater);
    assert_eq!(compare_keys(&[0x7f], &[0x80]), KeyOrder::Less);
    assert_eq!(compare_keys(b"10", b"10"), KeyOrder::Equal);
}

#[test]
fn compare_agrees_with_slice_order() {
    let samples: Vec<&[u8]> = vec![b"", b"0", b"00", b"0f", b"a", b"a-.1", b"a.1", b"ff", &[0xff]];
    for a in samples.iter() {
        for b in samples.iter() {
            let expected = if a < b {
                KeyOrder::Less
            } else if a == b {
                KeyOrder::Equal
            } else {
                KeyOrder::Greater
            };
            assert_eq!(compare_keys(a, b), expected);
            assert_eq!(keys_equal(a, b), a == b);
        }
    }
}

#[test]
fn prefix_test_handles_short_keys() {
    assert!(has_prefix(b"abc", b"ab"));
    assert!(has_prefix(b"abc", b"abc"));
    assert!(has_prefix(b"abc", b""));
    assert!(!has_prefix(b"ab", b"abc"));
    assert!(!has_prefix(b"", b"a"));
    assert!(!has_prefix(b"abd", b"abc"));
}

#[test]
fn hex_partitions_of_width_one() {
    let parts = hex_partitions(1, PartitionMode::Consecutive).unwrap();
    assert_eq!(parts.len(), 16);
    let expected = b"0123456789abcdef";
    for i in 0..16 {
        assert_eq!(parts[i].prefix, vec![expected[i]]);
        if i < 15 {
            assert_eq!(upper_of(&parts[i]), Some(vec![expected[i + 1]]));
        }
    }
    assert!(matches!(parts[15].extent, Extent::ToEnd));
}

#[test]
fn hex_partitions_list_every_string_in_order() {
    for width in 1..=3u32 {
        let parts = hex_partitions(width, PartitionMode::Consecutive).unwrap();
        assert_eq!(parts.len(), 16usize.pow(width));
        for (i, part) in parts.iter().enumerate() {
            let text = format!("{:0width$x}", i, width = width as usize);
            assert_eq!(part.prefix, text.as_bytes());
        }
        for pair in parts.windows(2) {
            assert!(pair[0].prefix < pair[1].prefix);
            assert_eq!(upper_of(&pair[0]), Some(pair[1].prefix.clone()));
        }
        assert!(matches!(parts[parts.len() - 1].extent, Extent::ToEnd));
    }
}

#[test]
fn independent_partitions_are_prefix_filters() {
    let parts = hex_partitions(2, PartitionMode::IndependentPrefix).unwrap();
    assert_eq!(parts.len(), 256);
    assert!(parts.iter().all(|p| matches!(p.extent, Extent::Prefix)));
    assert_eq!(parts[0x1f].prefix, b"1f");
    assert!(parts[0x1f].accepts(b"1f00"));
    assert!(parts[0x1f].accepts(b"1fzz"));
    assert!(!parts[0x1f].accepts(b"1"));
    assert!(!parts[0x1f].accepts(b"20"));
}

#[test]
fn consecutive_partitions_are_half_open_ranges() {
    let parts = hex_partitions(2, PartitionMode::Consecutive).unwrap();
    let part = &parts[0x1f];
    assert!(part.accepts(b"1f"));
    assert!(part.accepts(b"1f00"));
    assert!(part.accepts(b"1fzz"));
    assert!(part.accepts(&[b'1', b'f', 0xff]));
    assert!(!part.accepts(b"20"));
    assert!(!part.accepts(b"1e"));
    assert!(!part.accepts(b"1"));
    let last = &parts[255];
    assert!(last.accepts(b"ff"));
    assert!(last.accepts(b"zz"));
    assert!(last.accepts(&[0xff, 0xff, 0xff]));
    assert!(!last.accepts(b"fe"));
}

#[test]
fn every_key_has_one_partition() {
    let parts = hex_partitions(2, PartitionMode::Consecutive).unwrap();
    let keys: Vec<&[u8]> = vec![
        b"",
        b"0",
        b"/",
        b"/f",
        &[0x01],
        b"00",
        b"000",
        b"0g",
        b"1f3a",
        b"9",
        b"a",
        b"zz",
        &[0x30, 0x30, 0x00],
        &[0xff],
    ];
    for key in keys {
        let holders = parts.iter().filter(|p| p.accepts(key)).count();
        assert_eq!(holders, 1, "key {:?}", key);
    }
    for key in [&b""[..], b"0", b"/", b"/f", &[0x01], b"00", b"000"] {
        assert!(parts[0].accepts(key));
    }
    assert!(!parts[0].accepts(b"01"));
    assert!(parts[1].accepts(b"01"));
}

#[test]
fn the_first_partition_reaches_back_to_the_start() {
    for width in 1..=3u32 {
        let parts = hex_partitions(width, PartitionMode::Consecutive).unwrap();
        assert!(matches!(parts[0].extent, Extent::Before(_)));
        assert_eq!(parts[0].seek_key(), None);
        assert_eq!(parts[1].seek_key(), Some(&parts[1].prefix));
        assert_eq!(parts[parts.len() - 1].seek_key(), Some(&parts[parts.len() - 1].prefix));
        assert!(parts[1..parts.len() - 1].iter().all(|p| matches!(p.extent, Extent::Until(_))));
        assert_eq!(parts[0].prefix, vec![b'0'; width as usize]);
        assert_eq!(parts[parts.len() - 1].prefix, vec![b'f'; width as usize]);
    }
    let filters = hex_partitions(1, PartitionMode::IndependentPrefix).unwrap();
    assert_eq!(filters[0].seek_key(), Some(&b"0".to_vec()));
    assert!(!filters[0].accepts(b"/"));
}

#[test]
fn width_zero_is_rejected() {
    assert_eq!(hex_partitions(0, PartitionMode::Consecutive).err(), Some(JobError::InvalidWidth));
    assert_eq!(generate_consecutive_hex_strings(0).err(), Some(JobError::InvalidWidth));
}

#[test]
fn widths_up_to_fifteen_are_served() {
    assert_eq!(MAX_PARTITIONS, u64::MAX);
    for width in 1..=15u32 {
        assert_eq!(count_prefixes(16, width), Some(16u64.pow(width)));
    }
    assert_eq!(count_prefixes(16, 16), None);
    assert_eq!(count_prefixes(16, 0), Some(1));
    assert_eq!(count_prefixes(2, 63), Some(1 << 63));
    assert_eq!(count_prefixes(2, 64), None);
    assert_eq!(count_prefixes(256, 7), Some(1 << 56));
    assert_eq!(count_prefixes(256, 8), None);
    assert_eq!(count_prefixes(1, u32::MAX), Some(1));
    assert_eq!(count_prefixes(0, u32::MAX), Some(0));
    assert_eq!(count_prefixes(0, 0), Some(1));
    assert_eq!(count_prefixes(3, 40), Some(3u64.pow(40)));
    assert_eq!(count_prefixes(3, 41), None);
}

#[test]
fn width_beyond_the_limit_is_rejected() {
    assert_eq!(hex_partitions(16, PartitionMode::Consecutive).err(), Some(JobError::InvalidWidth));
    assert_eq!(
        hex_partitions(u32::MAX, PartitionMode::IndependentPrefix).err(),
        Some(JobError::InvalidWidth)
    );
    assert_eq!(generate_consecutive_hex_strings(16).err(), Some(JobError::InvalidWidth));
    assert_eq!(generate_consecutive_hex_strings(u32::MAX).err(), Some(JobError::InvalidWidth));
    assert_eq!(
        prefix_partitions(b"ab", 64, PartitionMode::Consecutive).err(),
        Some(JobError::InvalidWidth)
    );
    assert_eq!(
        prefix_partitions(b"ab", 12, PartitionMode::IndependentPrefix).map(|p| p.len()),
        Ok(1 << 12)
    );
}

#[test]
fn wide_lists_are_built() {
    let parts = hex_partitions(5, PartitionMode::Consecutive).unwrap();
    assert_eq!(parts.len(), 16usize.pow(5));
    assert_eq!(parts[0xabcde].prefix, b"abcde");
    let strings = generate_consecutive_hex_strings(5).unwrap();
    assert_eq!(strings.len(), 16usize.pow(5));
    assert_eq!(strings[0x0f0f0], "0f0f0");
    assert_eq!(strings[strings.len() - 1], "fffff");
}

#[test]
fn every_string_splits_into_its_sixteen_children() {
    for width in 1..=3u32 {
        let narrow = generate_consecutive_hex_strings(width).unwrap();
        let wide = generate_consecutive_hex_strings(width + 1).unwrap();
        assert_eq!(wide.len(), 16 * narrow.len());
        for (i, parent) in narrow.iter().enumerate() {
            for (d, digit) in "0123456789abcdef".chars().enumerate() {
                assert_eq!(wide[16 * i + d], format!("{parent}{digit}"));
            }
        }
    }
}

#[test]
fn values_are_written_as_hex_digits() {
    assert_eq!(hex_string_of_values(&[]), Some(String::new()));
    assert_eq!(hex_string_of_values(&[0, 10, 15, 9]), Some("0af9".to_string()));
    let all: Vec<u8> = (0..16).collect();
    assert_eq!(hex_string_of_values(&all), Some("0123456789abcdef".to_string()));
    assert_eq!(hex_string_of_values(&[16]), None);
    assert_eq!(hex_string_of_values(&[1, 2, 255, 3]), None);
}

#[test]
fn small_or_unsorted_alphabets_are_rejected() {
    assert!(alphabet_is_valid(b"01"));
    assert!(alphabet_is_valid(b"0123456789abcdef"));
    assert!(!alphabet_is_valid(b""));
    assert!(!alphabet_is_valid(b"a"));
    assert!(!alphabet_is_valid(b"ba"));
    assert!(!alphabet_is_valid(b"aab"));
    for alphabet in [&b""[..], b"a", b"ba", b"abb"] {
        assert_eq!(
            prefix_partitions(alphabet, 2, PartitionMode::Consecutive).err(),
            Some(JobError::InvalidAlphabet)
        );
    }
    assert_eq!(
        prefix_partitions(b"a", 0, PartitionMode::Consecutive).err(),
        Some(JobError::InvalidAlphabet)
    );
}

#[test]
fn custom_alphabet_partitions() {
    let parts = prefix_partitions(b"ab", 2, PartitionMode::Consecutive).unwrap();
    let prefixes: Vec<Vec<u8>> = parts.iter().map(|p| p.prefix.clone()).collect();
    assert_eq!(prefixes, vec![b"aa".to_vec(), b"ab".to_vec(), b"ba".to_vec(), b"bb".to_vec()]);
    assert_eq!(upper_of(&parts[1]), Some(b"ba".to_vec()));
    assert_eq!(upper_of(&parts[3]), None);
}

#[test]
fn consecutive_hex_strings_are_padded_numerals() {
    let one = generate_consecutive_hex_strings(1).unwrap();
    assert_eq!(one.len(), 16);
    assert_eq!(one.concat(), "0123456789abcdef");
    let two = generate_consecutive_hex_strings(2).unwrap();
    assert_eq!(two.len(), 256);
    assert_eq!(two[0], "00");
    assert_eq!(two[9], "09");
    assert_eq!(two[10], "0a");
    assert_eq!(two[16], "10");
    assert_eq!(two[255], "ff");
    let three = generate_consecutive_hex_strings(3).unwrap();
    assert_eq!(three.len(), 4096);
    for (i, text) in three.iter().enumerate() {
        assert_eq!(*text, format!("{:03x}", i));
    }
}

#[test]
fn random_hex_strings_hold_hex_digits() {
    assert_eq!(generate_random_hex_string(0), "");
    for n in [1usize, 2, 16, 33] {
        let text = generate_random_hex_string(n);
        assert_eq!(text.len(), n);
        assert!(text.bytes().all(|b| b"0123456789abcdef".contains(&b)));
    }
    let long = generate_random_hex_string(4096);
    assert!(long.bytes().any(|b| b != long.as_bytes()[0]));
}

#[test]
fn errors_belong_to_their_families() {
    assert_eq!(JobError::StoreAccess.kind(), ErrorKind::StoreAccess);
    assert_eq!(JobError::MalformedKey.kind(), ErrorKind::MalformedKey);
    assert_eq!(JobError::GroupKeyTooShort.kind(), ErrorKind::InvariantViolation);
    assert_eq!(JobError::ValueNotText.kind(), ErrorKind::InvariantViolation);
    assert_eq!(JobError::SeparatorInValue.kind(), ErrorKind::InvariantViolation);
    assert_eq!(JobError::InvalidWidth.kind(), ErrorKind::Configuration);
    assert_eq!(JobError::InvalidAlphabet.kind(), ErrorKind::Configuration);
}
