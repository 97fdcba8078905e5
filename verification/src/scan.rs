//! Scanning a store partition by partition and counting what is found.

use crate::error::JobError;
use crate::hex_text::{hex_alphabet, hex_digit, is_hex_digit};
use crate::keys::{
    ascending, lemma_lex_le_iff_not_gt, lemma_lex_lt_le, lemma_lex_transitive, lemma_prefix_run,
    lemma_prefix_sorts_first, lemma_split_exists, lemma_split_unique, lex_le, lex_lt, splits_at,
};
use crate::partition::{
    hex_partitions, is_consecutive, is_partitioning, lemma_consecutive_covers,
    lemma_consecutive_disjoint, lemma_every_string_listed, lemma_independent_disjoint,
    lemma_prefix_shape, lemma_prefix_within_range, lower_bounds, valid_width, Extent, Partition,
    PartitionMode,
};
use crate::store::{keys_of, MemStore};
use vstd::pervasive::unreached;
use vstd::prelude::*;

verus! {

/// The entries whose keys belong to the partition, in the order given: what
/// a scan of the partition visits.
pub open spec fn entries_within(entries: Seq<(Seq<u8>, Seq<u8>)>, part: Partition) -> Seq<
    (Seq<u8>, Seq<u8>),
>
    decreases entries.len(),
{
    if entries.len() == 0 {
        Seq::empty()
    } else {
        let rest = entries_within(entries.drop_last(), part);
        if part.contains(entries.last().0) {
            rest.push(entries.last())
        } else {
            rest
        }
    }
}

/// The number of partitions of the list that `key` belongs to.
pub open spec fn holders(parts: Seq<Partition>, key: Seq<u8>) -> nat
    decreases parts.len(),
{
    if parts.len() == 0 {
        0
    } else {
        holders(parts.drop_last(), key) + if parts.last().contains(key) {
            1nat
        } else {
            0nat
        }
    }
}

/// The sum, over the partitions, of the number of entries each one holds.
pub open spec fn total_within(entries: Seq<(Seq<u8>, Seq<u8>)>, parts: Seq<Partition>) -> nat
    decreases parts.len(),
{
    if parts.len() == 0 {
        0
    } else {
        total_within(entries, parts.drop_last()) + entries_within(entries, parts.last()).len()
    }
}

/// Where the members of a partition are exactly the entries at the indices
/// from `start` up to `end`, a scan of the partition visits that range.
pub proof fn lemma_within_is_range(
    entries: Seq<(Seq<u8>, Seq<u8>)>,
    part: Partition,
    start: int,
    end: int,
)
    requires
        0 <= start <= end <= entries.len(),
        forall|j: int|
            0 <= j < entries.len() ==> (part.contains((#[trigger] entries[j]).0) <==> start <= j
                < end),
    ensures
        entries_within(entries, part) == entries.subrange(start, end),
    decreases entries.len(),
{
    if entries.len() > 0 {
        let n = entries.len() as int;
        let shorter = entries.drop_last();
        if start == end {
            lemma_within_is_range(shorter, part, 0, 0);
        } else if end == n {
            lemma_within_is_range(shorter, part, start, n - 1);
            assert(shorter.subrange(start, n - 1).push(entries.last()) =~= entries.subrange(
                start,
                end,
            ));
        } else {
            lemma_within_is_range(shorter, part, start, end);
        }
    }
}

/// `start` is where a scan of the partition starts: at the first key of the
/// store, or where the key that the scan seeks to splits the keys.
pub open spec fn starts_scan(keys: Seq<Seq<u8>>, part: Partition, start: int) -> bool {
    match part.floor() {
        None => start == 0,
        Some(lower) => splits_at(keys, lower, start),
    }
}

/// The indices from `start` up to `end` are what a scan of the partition
/// consumes: it starts at `start`, consumes keys that the partition accepts,
/// and stops at `end`, which is the end of the store or the first key that
/// the partition does not accept.
pub open spec fn is_scan_of(keys: Seq<Seq<u8>>, part: Partition, start: int, end: int) -> bool {
    &&& starts_scan(keys, part, start)
    &&& start <= end <= keys.len()
    &&& forall|j: int| start <= j < end ==> part.contains(#[trigger] keys[j])
    &&& end < keys.len() ==> !part.contains(keys[end])
}

/// The first `done` keys are the keys before partition `i` of the list:
/// none before the first partition, the keys below the lower bound of a
/// later one, and all keys once the list is through.
pub open spec fn reaches(keys: Seq<Seq<u8>>, parts: Seq<Partition>, i: int, done: int) -> bool {
    if i <= 0 {
        done == 0
    } else if i < parts.len() {
        splits_at(keys, parts[i].lower(), done)
    } else {
        done == keys.len()
    }
}

/// In a sorted store the members of a partition are contiguous: a scan has
/// seen every member, and has stopped where the upper bound of the
/// partition splits the keys.
pub proof fn lemma_scan_is_exhaustive(keys: Seq<Seq<u8>>, part: Partition, start: int, end: int)
    requires
        ascending(keys),
        is_scan_of(keys, part, start, end),
    ensures
        forall|j: int|
            0 <= j < keys.len() ==> (part.contains(#[trigger] keys[j]) <==> start <= j < end),
        part.extent is ToEnd ==> end == keys.len(),
        part.upper() is Some && (part.floor() is None || lex_le(part.lower(), part.upper()->0))
            ==> splits_at(keys, part.upper()->0, end),
{
    let lower = part.lower();
    assert forall|j: int| 0 <= j < start implies !part.contains(#[trigger] keys[j]) by {
        lemma_lex_le_iff_not_gt(lower, keys[j]);
        if lower.is_prefix_of(keys[j]) {
            lemma_prefix_sorts_first(lower, keys[j]);
        }
    }
    if end < keys.len() {
        let stop = keys[end];
        assert forall|j: int| end <= j < keys.len() implies !part.contains(#[trigger] keys[j]) by {
            if end < j {
                assert(lex_lt(stop, keys[j]));
                match part.extent {
                    Extent::Prefix => {
                        if lower.is_prefix_of(keys[j]) {
                            lemma_prefix_run(lower, stop, keys[j]);
                        }
                    },
                    Extent::Until(bound) => {
                        if lex_lt(keys[j], bound@) {
                            lemma_lex_transitive(stop, keys[j], bound@);
                        }
                    },
                    Extent::Before(bound) => {
                        if lex_lt(keys[j], bound@) {
                            lemma_lex_transitive(stop, keys[j], bound@);
                        }
                    },
                    Extent::ToEnd => {},
                }
            }
        }
    }
    if part.upper() is Some && (part.floor() is None || lex_le(lower, part.upper()->0)) {
        let upper = part.upper()->0;
        assert forall|j: int| 0 <= j < end implies lex_lt(#[trigger] keys[j], upper) by {
            if j < start {
                lemma_lex_lt_le(keys[j], lower, upper);
            }
        }
        assert forall|j: int| end <= j < keys.len() implies lex_le(upper, #[trigger] keys[j]) by {
            lemma_lex_le_iff_not_gt(upper, keys[j]);
            lemma_lex_le_iff_not_gt(lower, keys[j]);
        }
    }
}

/// One step through a consecutive list: the scan of a partition starts
/// where the partitions before it have ended, and ends where the next
/// partition starts, or at the end of the store after the last one.
pub proof fn lemma_scan_advances(
    keys: Seq<Seq<u8>>,
    parts: Seq<Partition>,
    i: int,
    done: int,
    start: int,
    end: int,
)
    requires
        ascending(keys),
        is_consecutive(parts),
        0 <= i < parts.len(),
        reaches(keys, parts, i, done),
        is_scan_of(keys, parts[i], start, end),
    ensures
        start == done,
        reaches(keys, parts, i + 1, end),
        forall|j: int| 0 <= j < done ==> !parts[i].contains(#[trigger] keys[j]),
{
    let part = parts[i];
    let bounds = lower_bounds(parts);
    assert(bounds[i] == part.lower());
    if i > 0 {
        if i < parts.len() - 1 {
            assert(part.extent is Until);
        }
        lemma_split_unique(keys, part.lower(), start, done);
    }
    if i + 1 < parts.len() {
        assert(bounds[i + 1] == parts[i + 1].lower());
        assert(lex_lt(bounds[i], bounds[i + 1]));
        assert(part.upper() == Some(parts[i + 1].lower()));
    }
    lemma_scan_is_exhaustive(keys, part, start, end);
}

/// The scan of one partition in progress: the number of entries it has
/// consumed, and whether it has ended. A scan ends at the first key that
/// the partition does not accept, or when it is closed at the end of the
/// store; a scan that has ended consumes nothing more.
pub struct ScanCursor<'a> {
    part: &'a Partition,
    consumed: usize,
    ended: bool,
}

impl<'a> ScanCursor<'a> {
    /// The partition being scanned.
    pub closed spec fn partition(&self) -> Partition {
        *self.part
    }

    /// The number of entries consumed so far.
    pub closed spec fn seen(&self) -> nat {
        self.consumed as nat
    }

    /// Whether the scan has ended.
    pub closed spec fn ended(&self) -> bool {
        self.ended
    }

    /// A scan of `part` that has consumed nothing yet.
    pub fn new(part: &'a Partition) -> (cursor: ScanCursor<'a>)
        ensures
            cursor.partition() == *part,
            cursor.seen() == 0,
            !cursor.ended(),
    {
        ScanCursor { part, consumed: 0, ended: false }
    }

    /// Offers the scan the key of the next entry in key order. The answer
    /// is `Some(true)` where the scan consumes the entry, and `Some(false)`
    /// where it has ended before or ends at this key.
    ///
    /// The answer is `None`, and the scan unchanged, where the entry is to
    /// be consumed but the count is at its maximum.
    pub fn offer(&mut self, key: &[u8]) -> (taken: Option<bool>)
        ensures
            final(self).partition() == old(self).partition(),
            if old(self).ended() || !old(self).partition().contains(key@) {
                &&& taken == Some(false)
                &&& final(self).ended()
                &&& final(self).seen() == old(self).seen()
            } else if old(self).seen() == usize::MAX {
                &&& taken is None
                &&& !final(self).ended()
                &&& final(self).seen() == old(self).seen()
            } else {
                &&& taken == Some(true)
                &&& !final(self).ended()
                &&& final(self).seen() == old(self).seen() + 1
            },
    {
        if self.ended || !self.part.accepts(key) {
            self.ended = true;
            Some(false)
        } else if self.consumed == usize::MAX {
            None
        } else {
            self.consumed = self.consumed + 1;
            Some(true)
        }
    }

    /// Ends the scan: the store has no further entry.
    pub fn close(&mut self)
        ensures
            final(self).partition() == old(self).partition(),
            final(self).seen() == old(self).seen(),
            final(self).ended(),
    {
        self.ended = true;
    }

    /// The number of entries consumed so far.
    pub fn count(&self) -> (count: usize)
        ensures
            count == self.seen(),
    {
        self.consumed
    }

    /// Whether the scan has ended.
    pub fn has_ended(&self) -> (ended: bool)
        ensures
            ended == self.ended(),
    {
        self.ended
    }
}

/// Runs the scan of one partition: seeks to where the partition starts and
/// offers the cursor one entry after the other until the scan ends. Returns
/// the index range of the entries consumed.
pub fn scan_partition(store: &MemStore, part: &Partition) -> (range: (usize, usize))
    ensures
        is_scan_of(store.keys(), *part, range.0 as int, range.1 as int),
        forall|j: int|
            0 <= j < store@.len() ==> (part.contains(#[trigger] store.keys()[j]) <==> range.0 <= j
                < range.1),
        entries_within(store@, *part) == store@.subrange(range.0 as int, range.1 as int),
{
    proof {
        use_type_invariant(store);
    }
    let start = match part.seek_key() {
        Some(key) => store.seek(key.as_slice()),
        None => 0,
    };
    let n = store.len();
    let mut end = start;
    let mut cursor = ScanCursor::new(part);
    while !cursor.has_ended() && end < n
        invariant
            n == store@.len(),
            start <= end <= n,
            cursor.partition() == *part,
            cursor.seen() == end - start,
            forall|j: int| start <= j < end ==> part.contains(#[trigger] store.keys()[j]),
            cursor.ended() ==> end < n && !part.contains(store.keys()[end as int]),
        decreases (n - end) + (if cursor.ended() { 0int } else { 1int }),
    {
        match cursor.offer(store.entry(end).key.as_slice()) {
            Some(true) => {
                end += 1;
            },
            Some(false) => {},
            None => unreached(),
        }
    }
    proof {
        lemma_scan_is_exhaustive(store.keys(), *part, start as int, end as int);
        assert forall|j: int| 0 <= j < store@.len() implies (part.contains(
            (#[trigger] store@[j]).0,
        ) <==> start <= j < end) by {
            assert(store.keys()[j] == store@[j].0);
        }
        lemma_within_is_range(store@, *part, start as int, end as int);
    }
    (start, end)
}

/// Counts the entries of one partition.
pub fn count_partition(store: &MemStore, part: &Partition) -> (count: usize)
    ensures
        count == entries_within(store@, *part).len(),
{
    let (start, end) = scan_partition(store, part);
    end - start
}

/// Why a job over the hexadecimal partitions of `width` does not start, if
/// it does not: the partitioner turns the width down.
pub open spec fn width_error(width: nat) -> Option<JobError> {
    if !valid_width(hex_alphabet(), width) {
        Some(JobError::InvalidWidth)
    } else {
        None
    }
}

/// Every key belongs to exactly one of a list of consecutive partitions.
pub proof fn lemma_one_holder(parts: Seq<Partition>, key: Seq<u8>)
    requires
        is_consecutive(parts),
    ensures
        holders(parts, key) == 1,
{
    let i = lemma_consecutive_covers(parts, key);
    assert forall|j: int| 0 <= j < parts.len() && (#[trigger] parts[j]).contains(key) implies j
        == i by {
        lemma_consecutive_disjoint(parts, key, i, j);
    }
    lemma_holders_up_to(parts, key, i, parts.len() as int);
    assert(parts.take(parts.len() as int) =~= parts);
}

proof fn lemma_holders_up_to(parts: Seq<Partition>, key: Seq<u8>, i: int, m: int)
    requires
        0 <= i < parts.len(),
        forall|j: int| 0 <= j < parts.len() && (#[trigger] parts[j]).contains(key) ==> j == i,
        parts[i].contains(key),
        0 <= m <= parts.len(),
    ensures
        holders(parts.take(m), key) == if i < m { 1nat } else { 0nat },
    decreases m,
{
    if m > 0 {
        lemma_holders_up_to(parts, key, i, m - 1);
        assert(parts.take(m).drop_last() =~= parts.take(m - 1));
    }
}

proof fn lemma_no_holder(parts: Seq<Partition>, key: Seq<u8>)
    requires
        forall|j: int| 0 <= j < parts.len() ==> !(#[trigger] parts[j]).contains(key),
    ensures
        holders(parts, key) == 0,
    decreases parts.len(),
{
    if parts.len() > 0 {
        let head = parts.drop_last();
        lemma_no_holder(head, key);
    }
}

proof fn lemma_total_within_push(
    entries: Seq<(Seq<u8>, Seq<u8>)>,
    entry: (Seq<u8>, Seq<u8>),
    parts: Seq<Partition>,
)
    ensures
        total_within(entries.push(entry), parts) == total_within(entries, parts) + holders(
            parts,
            entry.0,
        ),
    decreases parts.len(),
{
    if parts.len() > 0 {
        lemma_total_within_push(entries, entry, parts.drop_last());
        assert(entries.push(entry).drop_last() =~= entries);
    }
}

proof fn lemma_total_within_empty(parts: Seq<Partition>)
    ensures
        total_within(Seq::empty(), parts) == 0,
    decreases parts.len(),
{
    if parts.len() > 0 {
        lemma_total_within_empty(parts.drop_last());
    }
}

/// Counting partition by partition counts every entry once: over
/// consecutive partitions the per-partition counts add up to the number of
/// entries.
pub proof fn lemma_partition_counts_add_up(
    entries: Seq<(Seq<u8>, Seq<u8>)>,
    parts: Seq<Partition>,
)
    requires
        is_consecutive(parts),
    ensures
        total_within(entries, parts) == entries.len(),
    decreases entries.len(),
{
    if entries.len() == 0 {
        assert(entries =~= Seq::empty());
        lemma_total_within_empty(parts);
    } else {
        let shorter = entries.drop_last();
        lemma_partition_counts_add_up(shorter, parts);
        lemma_total_within_push(shorter, entries.last(), parts);
        assert(shorter.push(entries.last()) =~= entries);
        lemma_one_holder(parts, entries.last().0);
    }
}

/// Counts the entries of a store by scanning the consecutive hexadecimal
/// partitions of the given width one by one and adding the counts up.
///
/// The count is the number of entries in the store. The job does not start
/// with a width that the partitioner turns down.
pub fn scan_and_count(store: &MemStore, width: u32) -> (result: Result<usize, JobError>)
    ensures
        match width_error(width as nat) {
            Some(e) => result == Err::<usize, JobError>(e),
            None => result is Ok && result->Ok_0 == store@.len(),
        },
{
    proof {
        use_type_invariant(store);
    }
    let parts = match hex_partitions(width, PartitionMode::Consecutive) {
        Ok(parts) => parts,
        Err(e) => {
            return Err(e);
        },
    };
    let mut total: usize = 0;
    let mut i: usize = 0;
    while i < parts.len()
        invariant
            store.wf(),
            is_consecutive(parts@),
            i <= parts@.len(),
            total <= store@.len(),
            reaches(store.keys(), parts@, i as int, total as int),
        decreases parts@.len() - i,
    {
        let (start, end) = scan_partition(store, &parts[i]);
        proof {
            lemma_scan_advances(
                store.keys(),
                parts@,
                i as int,
                total as int,
                start as int,
                end as int,
            );
        }
        total = total + (end - start);
        i += 1;
    }
    Ok(total)
}

/// In a sorted store the members of a partition of a consecutive list are
/// the entries from where the partitions before it end up to where the next
/// partition starts, or up to the end for the last partition.
pub proof fn lemma_partition_slice(
    entries: Seq<(Seq<u8>, Seq<u8>)>,
    parts: Seq<Partition>,
    m: int,
) -> (range: (int, int))
    requires
        ascending(keys_of(entries)),
        is_consecutive(parts),
        0 <= m < parts.len(),
    ensures
        0 <= range.0 <= range.1 <= entries.len(),
        reaches(keys_of(entries), parts, m, range.0),
        reaches(keys_of(entries), parts, m + 1, range.1),
        forall|j: int|
            0 <= j < entries.len() ==> (parts[m].contains((#[trigger] entries[j]).0) <==> range.0
                <= j < range.1),
        entries_within(entries, parts[m]) == entries.subrange(range.0, range.1),
{
    let keys = keys_of(entries);
    let part = parts[m];
    let bounds = lower_bounds(parts);
    assert(bounds[m] == part.lower());
    let start = if m == 0 {
        0
    } else {
        lemma_split_exists(keys, part.lower())
    };
    let end = if m + 1 < parts.len() {
        assert(bounds[m + 1] == parts[m + 1].lower());
        assert(lex_lt(bounds[m], bounds[m + 1]));
        assert(part.upper() == Some(parts[m + 1].lower()));
        lemma_split_exists(keys, parts[m + 1].lower())
    } else {
        entries.len() as int
    };
    if 0 < m < parts.len() - 1 {
        assert(part.extent is Until);
    }
    if end < start {
        lemma_lex_lt_le(keys[end], part.lower(), keys[end]);
        lemma_lex_le_iff_not_gt(parts[m + 1].lower(), keys[end]);
        lemma_lex_transitive(keys[end], part.lower(), parts[m + 1].lower());
    }
    assert forall|j: int| 0 <= j < entries.len() implies (part.contains((#[trigger] entries[j]).0)
        <==> start <= j < end) by {
        assert(keys[j] == entries[j].0);
        lemma_lex_le_iff_not_gt(part.lower(), keys[j]);
        if m + 1 < parts.len() {
            lemma_lex_le_iff_not_gt(parts[m + 1].lower(), keys[j]);
        }
    }
    lemma_within_is_range(entries, part, start, end);
    (start, end)
}

/// The key starts with `width` hexadecimal digits.
pub open spec fn has_hex_head(key: Seq<u8>, width: nat) -> bool {
    key.len() >= width && forall|k: int| 0 <= k < width ==> is_hex_digit(#[trigger] key[k])
}

/// The number of entries whose keys start with `width` hexadecimal digits.
pub open spec fn count_hex_heads(entries: Seq<(Seq<u8>, Seq<u8>)>, width: nat) -> nat
    decreases entries.len(),
{
    if entries.len() == 0 {
        0
    } else {
        count_hex_heads(entries.drop_last(), width) + if has_hex_head(entries.last().0, width) {
            1nat
        } else {
            0nat
        }
    }
}

/// A key belongs to one of the independent hexadecimal partitions of a
/// width where it starts with that many hexadecimal digits, and to none
/// where it does not.
pub proof fn lemma_hex_head_holder(parts: Seq<Partition>, width: nat, key: Seq<u8>)
    requires
        is_partitioning(parts, hex_alphabet(), width, PartitionMode::IndependentPrefix),
    ensures
        holders(parts, key) == if has_hex_head(key, width) { 1nat } else { 0nat },
{
    let alphabet = hex_alphabet();
    if has_hex_head(key, width) {
        let head = key.take(width as int);
        assert forall|k: int| 0 <= k < width implies alphabet.contains(#[trigger] head[k]) by {
            lemma_hex_digit_listed(head[k]);
        }
        let i = lemma_every_string_listed(alphabet, width, head);
        assert forall|j: int| 0 <= j < parts.len() && (#[trigger] parts[j]).contains(key) implies j
            == i by {
            lemma_independent_disjoint(parts, alphabet, width, key, i, j);
        }
        lemma_holders_up_to(parts, key, i, parts.len() as int);
        assert(parts.take(parts.len() as int) =~= parts);
    } else {
        assert forall|j: int| 0 <= j < parts.len() implies !(#[trigger] parts[j]).contains(key) by {
            if parts[j].contains(key) {
                let prefix = parts[j].lower();
                lemma_prefix_shape(alphabet, width, j);
                assert forall|k: int| 0 <= k < width implies is_hex_digit(#[trigger] key[k]) by {
                    let at = choose|at: int| 0 <= at < alphabet.len() && alphabet[at] == prefix[k];
                    assert(key[k] == hex_digit(at));
                }
            }
        }
        lemma_no_holder(parts, key);
    }
}

proof fn lemma_hex_digit_listed(digit: u8)
    requires
        is_hex_digit(digit),
    ensures
        hex_alphabet().contains(digit),
{
    let value: int = if digit <= 0x39 { digit - 0x30 } else { digit - 0x61 + 10 };
    assert(hex_alphabet()[value] == digit);
}

/// Counting over independent prefixes counts the entries whose keys start
/// with one of them: the per-partition counts add up to the number of keys
/// that start with `width` hexadecimal digits.
pub proof fn lemma_prefix_counts_add_up(
    entries: Seq<(Seq<u8>, Seq<u8>)>,
    parts: Seq<Partition>,
    width: nat,
)
    requires
        is_partitioning(parts, hex_alphabet(), width, PartitionMode::IndependentPrefix),
    ensures
        total_within(entries, parts) == count_hex_heads(entries, width),
    decreases entries.len(),
{
    if entries.len() == 0 {
        assert(entries =~= Seq::empty());
        lemma_total_within_empty(parts);
    } else {
        let head = entries.drop_last();
        lemma_prefix_counts_add_up(head, parts, width);
        lemma_total_within_push(head, entries.last(), parts);
        assert(head.push(entries.last()) =~= entries);
        lemma_hex_head_holder(parts, width, entries.last().0);
    }
}

proof fn lemma_total_within_grows(entries: Seq<(Seq<u8>, Seq<u8>)>, parts: Seq<Partition>, m: int)
    requires
        0 <= m <= parts.len(),
    ensures
        total_within(entries, parts.take(m)) <= total_within(entries, parts),
    decreases parts.len() - m,
{
    if m < parts.len() {
        lemma_total_within_grows(entries, parts, m + 1);
        assert(parts.take(m + 1).drop_last() =~= parts.take(m));
    } else {
        assert(parts.take(m) =~= parts);
    }
}

proof fn lemma_hex_heads_bounded(entries: Seq<(Seq<u8>, Seq<u8>)>, width: nat)
    ensures
        count_hex_heads(entries, width) <= entries.len(),
    decreases entries.len(),
{
    if entries.len() > 0 {
        lemma_hex_heads_bounded(entries.drop_last(), width);
    }
}

/// Two partitions that hold the same keys of a list hold the same entries
/// of it.
pub proof fn lemma_within_same_members(
    entries: Seq<(Seq<u8>, Seq<u8>)>,
    one: Partition,
    other: Partition,
)
    requires
        forall|j: int|
            0 <= j < entries.len() ==> one.contains((#[trigger] entries[j]).0) == other.contains(
                entries[j].0,
            ),
    ensures
        entries_within(entries, one) == entries_within(entries, other),
    decreases entries.len(),
{
    if entries.len() > 0 {
        let head = entries.drop_last();
        assert forall|j: int| 0 <= j < head.len() implies one.contains((#[trigger] head[j]).0)
            == other.contains(head[j].0) by {
            assert(head[j] == entries[j]);
        }
        lemma_within_same_members(head, one, other);
        assert(entries.last() == entries[entries.len() - 1]);
    }
}

/// Every key of the list starts with `width` hexadecimal digits.
pub open spec fn all_hex_heads(entries: Seq<(Seq<u8>, Seq<u8>)>, width: nat) -> bool {
    forall|j: int| 0 <= j < entries.len() ==> has_hex_head((#[trigger] entries[j]).0, width)
}

/// The two modes agree on keys that start with hexadecimal digits: of
/// entries whose keys all start with `width` hexadecimal digits, the
/// independent prefix of an index holds what the consecutive partition of
/// that index holds.
pub proof fn lemma_modes_agree(
    entries: Seq<(Seq<u8>, Seq<u8>)>,
    consecutive: Seq<Partition>,
    independent: Seq<Partition>,
    width: nat,
    i: int,
)
    requires
        is_partitioning(consecutive, hex_alphabet(), width, PartitionMode::Consecutive),
        is_partitioning(independent, hex_alphabet(), width, PartitionMode::IndependentPrefix),
        all_hex_heads(entries, width),
        0 <= i < independent.len(),
    ensures
        entries_within(entries, independent[i]) == entries_within(entries, consecutive[i]),
{
    let alphabet = hex_alphabet();
    assert forall|j: int| 0 <= j < entries.len() implies independent[i].contains(
        (#[trigger] entries[j]).0,
    ) == consecutive[i].contains(entries[j].0) by {
        let key = entries[j].0;
        if independent[i].contains(key) {
            lemma_prefix_within_range(consecutive, alphabet, width, i, key);
        }
        if consecutive[i].contains(key) {
            let head = key.take(width as int);
            assert forall|k: int| 0 <= k < width implies alphabet.contains(#[trigger] head[k]) by {
                lemma_hex_digit_listed(head[k]);
            }
            let at = lemma_every_string_listed(alphabet, width, head);
            assert(independent[at].lower() == head);
            assert(consecutive[at].lower() == head);
            lemma_prefix_within_range(consecutive, alphabet, width, at, key);
            lemma_consecutive_disjoint(consecutive, key, at, i);
        }
    }
    lemma_within_same_members(entries, independent[i], consecutive[i]);
}

/// Counts the entries of a store whose keys start with `width` hexadecimal
/// digits, by scanning the independent hexadecimal prefixes of that width
/// one by one and adding the counts up. Entries whose keys start with no
/// prefix are passed over.
///
/// The job does not start with a width that the partitioner turns down.
pub fn count_prefixed(store: &MemStore, width: u32) -> (result: Result<usize, JobError>)
    ensures
        match result {
            Ok(count) => valid_width(hex_alphabet(), width as nat) && count == count_hex_heads(
                store@,
                width as nat,
            ),
            Err(e) => e == JobError::InvalidWidth && !valid_width(hex_alphabet(), width as nat),
        },
{
    proof {
        use_type_invariant(store);
    }
    let parts = match hex_partitions(width, PartitionMode::IndependentPrefix) {
        Ok(parts) => parts,
        Err(e) => {
            return Err(e);
        },
    };
    let limit = store.len();
    let mut total: usize = 0;
    let mut i: usize = 0;
    proof {
        lemma_prefix_counts_add_up(store@, parts@, width as nat);
        lemma_hex_heads_bounded(store@, width as nat);
    }
    while i < parts.len()
        invariant
            store.wf(),
            i <= parts@.len(),
            total == total_within(store@, parts@.take(i as int)),
            total_within(store@, parts@) <= limit,
        decreases parts@.len() - i,
    {
        let count = count_partition(store, &parts[i]);
        proof {
            assert(parts@.take(i + 1).drop_last() =~= parts@.take(i as int));
            lemma_total_within_grows(store@, parts@, i + 1);
        }
        total = total + count;
        i += 1;
    }
    proof {
        assert(parts@.take(i as int) =~= parts@);
    }
    Ok(total)
}

} // verus!
