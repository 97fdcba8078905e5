//! The reduce stage: the sorted output of the map stage is cut into groups
//! wherever the grouping key changes, and each group becomes one entry.

use crate::error::JobError;
use crate::hex_text::hex_alphabet;
use crate::job::JobStats;
use crate::keys::{
    ascending, keys_equal, lemma_lex_le_iff_not_gt, lemma_same_head_same_side,
    lemma_split_unique,
};
use crate::map_stage::SEPARATOR;
use crate::partition::{
    hex_partitions, is_partitioning, lemma_prefix_shape, Extent, Partition, PartitionMode,
};
use crate::scan::{
    entries_within, lemma_partition_slice, lemma_scan_advances, reaches, scan_partition,
    width_error,
};
use crate::store::{
    contents, keys_of, lemma_write_all_concat, write_all, Entry, MemStore, WriteBatch,
};
use vstd::pervasive::unreached;
use vstd::prelude::*;
use vstd::slice::{slice_subrange, slice_to_vec};

verus! {

/// The byte between the values of a group in the reduced value: a vertical
/// bar.
pub const DELIMITER: u8 = 0x7c;

/// `index` is the position of the last separator of `key`.
pub open spec fn is_last_separator(key: Seq<u8>, index: int) -> bool {
    &&& 0 <= index < key.len()
    &&& key[index] == SEPARATOR
    &&& forall|j: int| index < j < key.len() ==> key[j] != SEPARATOR
}

/// The position of the last separator of a key that holds one.
pub open spec fn last_separator(key: Seq<u8>) -> int {
    choose|index: int| is_last_separator(key, index)
}

/// The grouping key: what stands before the last separator.
pub open spec fn group_key(key: Seq<u8>) -> Seq<u8> {
    key.take(last_separator(key))
}

/// Why the reduce stage turns an entry down, if it does: its key holds no
/// separator, or its grouping key is shorter than the partition width, so
/// that the group could be cut in two by a partition boundary.
pub open spec fn key_error(key: Seq<u8>, width: nat) -> Option<JobError> {
    if !key.contains(SEPARATOR) {
        Some(JobError::MalformedKey)
    } else if group_key(key).len() < width {
        Some(JobError::GroupKeyTooShort)
    } else {
        None
    }
}

/// The entries that the reduce stage emits for a run of entries: one for
/// each maximal run of neighbours with the same grouping key, under that
/// key, holding the values of the run in order with the delimiter between
/// them.
pub open spec fn reduced(entries: Seq<(Seq<u8>, Seq<u8>)>) -> Seq<(Seq<u8>, Seq<u8>)>
    decreases entries.len(),
{
    if entries.len() == 0 {
        Seq::empty()
    } else {
        let before = reduced(entries.drop_last());
        let group = group_key(entries.last().0);
        let value = entries.last().1;
        if before.len() > 0 && before.last().0 == group {
            before.drop_last().push((group, before.last().1 + seq![DELIMITER] + value))
        } else {
            before.push((group, value))
        }
    }
}

/// A key has one last separator at most.
pub proof fn lemma_last_separator_unique(key: Seq<u8>, i: int, j: int)
    requires
        is_last_separator(key, i),
        is_last_separator(key, j),
    ensures
        i == j,
{
}

/// The last separator of a key, once found, gives its grouping key.
pub proof fn lemma_group_key_at(key: Seq<u8>, index: int)
    requires
        is_last_separator(key, index),
    ensures
        key.contains(SEPARATOR),
        last_separator(key) == index,
        group_key(key) == key.take(index),
{
}

proof fn lemma_last_separator_below(key: Seq<u8>, some: int, k: int)
    requires
        0 <= some < k <= key.len(),
        key[some] == SEPARATOR,
        forall|j: int| k <= j < key.len() ==> key[j] != SEPARATOR,
    ensures
        exists|index: int| is_last_separator(key, index),
    decreases k,
{
    if key[k - 1] == SEPARATOR {
        assert(is_last_separator(key, k - 1));
    } else {
        lemma_last_separator_below(key, some, k - 1);
    }
}

/// A key that holds a separator has a last one, and its grouping key is
/// shorter than the key.
pub proof fn lemma_last_separator_exists(key: Seq<u8>)
    requires
        key.contains(SEPARATOR),
    ensures
        is_last_separator(key, last_separator(key)),
        group_key(key).len() == last_separator(key) < key.len(),
{
    let some = choose|i: int| 0 <= i < key.len() && key[i] == SEPARATOR;
    lemma_last_separator_below(key, some, key.len() as int);
}

/// Finds the last separator of a key.
pub fn find_last_separator(key: &[u8]) -> (found: Option<usize>)
    ensures
        match found {
            Some(index) => is_last_separator(key@, index as int),
            None => !key@.contains(SEPARATOR),
        },
{
    let mut i: usize = key.len();
    while i > 0
        invariant
            i <= key@.len(),
            forall|j: int| i <= j < key@.len() ==> key@[j] != SEPARATOR,
        decreases i,
    {
        if key[i - 1] == SEPARATOR {
            return Some(i - 1);
        }
        i -= 1;
    }
    None
}

/// The view of an emitted entry, where one was emitted.
pub open spec fn emitted_view(emitted: Option<Entry>) -> Option<(Seq<u8>, Seq<u8>)> {
    match emitted {
        Some(entry) => Some(entry@),
        None => None,
    }
}

/// The group that the reduce stage is building while it walks the entries
/// of one partition in key order.
pub struct GroupReducer {
    width: usize,
    group: Option<Entry>,
}

impl GroupReducer {
    /// The partition width that grouping keys are held to.
    pub closed spec fn width(&self) -> nat {
        self.width as nat
    }

    /// The group under construction: its grouping key and its values so
    /// far, joined by the delimiter.
    pub closed spec fn pending(&self) -> Option<(Seq<u8>, Seq<u8>)> {
        emitted_view(self.group)
    }

    /// A reducer with no group yet, for partitions of the given width.
    pub fn new(width: usize) -> (reducer: GroupReducer)
        ensures
            reducer.width() == width,
            reducer.pending() is None,
    {
        GroupReducer { width, group: None }
    }

    /// Takes the next entry in key order. Where its grouping key is that of
    /// the group under construction, its value joins the group and nothing
    /// is emitted. Otherwise the group under construction, if there is one,
    /// is emitted, and the entry starts a new group.
    ///
    /// An entry whose key holds no separator is turned down with
    /// `MalformedKey`, and one whose grouping key is shorter than the width
    /// with `GroupKeyTooShort`; the reducer is then left as it was.
    pub fn push(&mut self, key: &[u8], value: &[u8]) -> (result: Result<Option<Entry>, JobError>)
        ensures
            final(self).width() == old(self).width(),
            match key_error(key@, old(self).width()) {
                Some(e) => result == Err::<Option<Entry>, JobError>(e) && final(self).pending()
                    == old(self).pending(),
                None => result is Ok && ({
                    let group = group_key(key@);
                    let emitted = emitted_view(result->Ok_0);
                    let (open_key, open_value) = old(self).pending().unwrap();
                    if old(self).pending() is Some && open_key == group {
                        &&& emitted is None
                        &&& final(self).pending() == Some(
                            (group, open_value + seq![DELIMITER] + value@),
                        )
                    } else {
                        &&& emitted == old(self).pending()
                        &&& final(self).pending() == Some((group, value@))
                    }
                }),
            },
    {
        let index = match find_last_separator(key) {
            Some(index) => index,
            None => {
                return Err(JobError::MalformedKey);
            },
        };
        if index < self.width {
            return Err(JobError::GroupKeyTooShort);
        }
        let group = slice_subrange(key, 0, index);
        let mut current: Option<Entry> = None;
        core::mem::swap(&mut current, &mut self.group);
        match current {
            Some(mut entry) => {
                if keys_equal(entry.key.as_slice(), group) {
                    entry.value.push(DELIMITER);
                    let mut tail = slice_to_vec(value);
                    entry.value.append(&mut tail);
                    self.group = Some(entry);
                    Ok(None)
                } else {
                    self.group = Some(
                        Entry { key: slice_to_vec(group), value: slice_to_vec(value) },
                    );
                    Ok(Some(entry))
                }
            },
            None => {
                self.group = Some(Entry { key: slice_to_vec(group), value: slice_to_vec(value) });
                Ok(None)
            },
        }
    }

    /// Ends the walk: emits the group under construction, if there is one.
    pub fn finish(&mut self) -> (emitted: Option<Entry>)
        ensures
            final(self).width() == old(self).width(),
            emitted_view(emitted) == old(self).pending(),
            final(self).pending() is None,
    {
        let mut current: Option<Entry> = None;
        core::mem::swap(&mut current, &mut self.group);
        current
    }
}

/// The error of the first entry, in list order, that the reduce stage
/// turns down.
pub open spec fn first_key_error(entries: Seq<(Seq<u8>, Seq<u8>)>, width: nat) -> Option<
    JobError,
>
    decreases entries.len(),
{
    if entries.len() == 0 {
        None
    } else {
        match first_key_error(entries.drop_last(), width) {
            Some(e) => Some(e),
            None => key_error(entries.last().0, width),
        }
    }
}

/// Why a reduce job does not run, if it does not: the width is judged as
/// for any job over hexadecimal partitions, then the shape of the keys.
pub open spec fn reduce_error(entries: Seq<(Seq<u8>, Seq<u8>)>, width: nat) -> Option<JobError> {
    match width_error(width) {
        Some(e) => Some(e),
        None => first_key_error(entries, width),
    }
}

/// Where no key is at fault, the key at every index is well formed.
pub proof fn lemma_keys_checked(entries: Seq<(Seq<u8>, Seq<u8>)>, width: nat, index: int)
    requires
        first_key_error(entries, width) is None,
        0 <= index < entries.len(),
    ensures
        key_error(entries[index].0, width) is None,
    decreases entries.len(),
{
    if index < entries.len() - 1 {
        lemma_keys_checked(entries.drop_last(), width, index);
    }
}

proof fn lemma_first_key_error_stays(entries: Seq<(Seq<u8>, Seq<u8>)>, width: nat, n: int)
    requires
        0 <= n <= entries.len(),
        first_key_error(entries.take(n), width) is Some,
    ensures
        first_key_error(entries, width) == first_key_error(entries.take(n), width),
    decreases entries.len() - n,
{
    if n < entries.len() {
        assert(entries.take(n + 1).drop_last() =~= entries.take(n));
        lemma_first_key_error_stays(entries, width, n + 1);
    } else {
        assert(entries.take(n) =~= entries);
    }
}

/// Checks one key against the reduce stage's demands.
pub fn check_key(key: &[u8], width: usize) -> (result: Result<(), JobError>)
    ensures
        match key_error(key@, width as nat) {
            Some(e) => result == Err::<(), JobError>(e),
            None => result is Ok,
        },
{
    match find_last_separator(key) {
        None => Err(JobError::MalformedKey),
        Some(index) => {
            if index < width {
                Err(JobError::GroupKeyTooShort)
            } else {
                Ok(())
            }
        },
    }
}

/// Checks the keys of a store in key order and reports the first fault.
pub fn check_keys(source: &MemStore, width: usize) -> (result: Result<(), JobError>)
    ensures
        match first_key_error(source@, width as nat) {
            Some(e) => result == Err::<(), JobError>(e),
            None => result is Ok,
        },
{
    let mut i: usize = 0;
    while i < source.len()
        invariant
            i <= source@.len(),
            first_key_error(source@.take(i as int), width as nat) is None,
        decreases source@.len() - i,
    {
        proof {
            assert(source@.take(i + 1).drop_last() =~= source@.take(i as int));
        }
        match check_key(source.entry(i).key.as_slice(), width) {
            Err(e) => {
                proof {
                    lemma_first_key_error_stays(source@, width as nat, i + 1);
                }
                return Err(e);
            },
            Ok(_) => {},
        }
        i += 1;
    }
    proof {
        assert(source@.take(i as int) =~= source@);
    }
    Ok(())
}

/// The emitted entries followed by the group under construction.
pub open spec fn with_pending(
    emitted: Seq<(Seq<u8>, Seq<u8>)>,
    pending: Option<(Seq<u8>, Seq<u8>)>,
) -> Seq<(Seq<u8>, Seq<u8>)> {
    match pending {
        Some(group) => emitted.push(group),
        None => emitted,
    }
}

/// A run that is not empty reduces to at least one entry and to no more
/// entries than it has, and the last of them is the group of its last
/// entry.
pub proof fn lemma_reduced_shape(entries: Seq<(Seq<u8>, Seq<u8>)>)
    ensures
        reduced(entries).len() <= entries.len(),
        entries.len() > 0 ==> reduced(entries).len() > 0 && reduced(entries).last().0
            == group_key(entries.last().0),
    decreases entries.len(),
{
    if entries.len() > 0 {
        lemma_reduced_shape(entries.drop_last());
    }
}

/// Two runs that meet at a change of the grouping key reduce
/// independently: what the reduce stage emits for one followed by the other
/// is what it emits for the first followed by what it emits for the second.
pub proof fn lemma_reduced_concat(first: Seq<(Seq<u8>, Seq<u8>)>, second: Seq<(Seq<u8>, Seq<u8>)>)
    requires
        first.len() == 0 || second.len() == 0 || group_key(first.last().0) != group_key(
            second[0].0,
        ),
    ensures
        reduced(first + second) == reduced(first) + reduced(second),
    decreases second.len(),
{
    if second.len() > 0 {
        let shorter = second.drop_last();
        assert((first + second).drop_last() =~= first + shorter);
        lemma_reduced_concat(first, shorter);
    }
}

/// The error of the first entry at fault is the error of some entry.
pub proof fn lemma_first_key_error_found(entries: Seq<(Seq<u8>, Seq<u8>)>, width: nat) -> (index:
    int)
    requires
        first_key_error(entries, width) is Some,
    ensures
        0 <= index < entries.len(),
        key_error(entries[index].0, width) == first_key_error(entries, width),
    decreases entries.len(),
{
    if first_key_error(entries.drop_last(), width) is Some {
        lemma_first_key_error_found(entries.drop_last(), width)
    } else {
        entries.len() - 1
    }
}

/// Where the key at every index is well formed, no key is at fault.
pub proof fn lemma_no_key_error(entries: Seq<(Seq<u8>, Seq<u8>)>, width: nat)
    requires
        forall|j: int|
            0 <= j < entries.len() ==> key_error((#[trigger] entries[j]).0, width) is None,
    ensures
        first_key_error(entries, width) is None,
    decreases entries.len(),
{
    if entries.len() > 0 {
        let head = entries.drop_last();
        lemma_no_key_error(head, width);
    }
}

/// Reduces the entries of a store from `start` up to `end` into a batch:
/// walks them in key order with a reducer of its own and collects what the
/// reducer emits.
///
/// The first entry of the range that the reducer turns down ends the walk
/// with its error.
pub fn reduce_range(source: &MemStore, start: usize, end: usize, width: usize) -> (result: Result<
    WriteBatch,
    JobError,
>)
    requires
        start <= end <= source@.len(),
    ensures
        match first_key_error(source@.subrange(start as int, end as int), width as nat) {
            Some(e) => result is Err && result->Err_0 == e,
            None => result is Ok && result->Ok_0@ == reduced(
                source@.subrange(start as int, end as int),
            ),
        },
{
    let ghost range = source@.subrange(start as int, end as int);
    let mut batch = WriteBatch::new();
    let mut reducer = GroupReducer::new(width);
    let mut k: usize = start;
    proof {
        assert(range.take(0) =~= Seq::empty());
    }
    while k < end
        invariant
            start <= k <= end <= source@.len(),
            range == source@.subrange(start as int, end as int),
            reducer.width() == width,
            first_key_error(range.take(k - start), width as nat) is None,
            with_pending(batch@, reducer.pending()) == reduced(range.take(k - start)),
            reducer.pending() is None ==> k == start,
        decreases end - k,
    {
        let entry = source.entry(k);
        proof {
            let run = range.take(k + 1 - start);
            assert(run.drop_last() =~= range.take(k - start));
            assert(run.last() == source@[k as int]);
        }
        match reducer.push(entry.key.as_slice(), entry.value.as_slice()) {
            Ok(Some(group)) => {
                batch.put(group.key, group.value);
            },
            Ok(None) => {},
            Err(e) => {
                proof {
                    lemma_first_key_error_stays(range, width as nat, k + 1 - start);
                }
                return Err(e);
            },
        }
        k += 1;
    }
    match reducer.finish() {
        Some(group) => {
            batch.put(group.key, group.value);
        },
        None => {},
    }
    proof {
        assert(range.take(end - start) =~= range);
    }
    Ok(batch)
}

/// A partition whose bounds have the partition width cannot tell two keys
/// apart that agree on that many bytes: a group whose key is at least that
/// long lies in one partition as a whole.
pub proof fn lemma_group_in_one_partition(part: Partition, width: nat, x: Seq<u8>, y: Seq<u8>)
    requires
        part.lower().len() == width,
        part.upper() is Some ==> part.upper()->0.len() == width,
        key_error(x, width) is None,
        key_error(y, width) is None,
        group_key(x) == group_key(y),
    ensures
        part.contains(x) == part.contains(y),
{
    let w = width as int;
    lemma_last_separator_exists(x);
    lemma_last_separator_exists(y);
    assert(x.take(w) =~= group_key(x).take(w));
    assert(y.take(w) =~= group_key(y).take(w));
    lemma_same_head_same_side(part.lower(), x, y);
    lemma_lex_le_iff_not_gt(part.lower(), x);
    lemma_lex_le_iff_not_gt(part.lower(), y);
    match part.extent {
        Extent::Until(bound) => {
            lemma_same_head_same_side(bound@, x, y);
        },
        Extent::Before(bound) => {
            lemma_same_head_same_side(bound@, x, y);
        },
        _ => {},
    }
}

/// The sum, over the partitions, of the number of groups that the reduce
/// stage emits for the entries of each partition.
pub open spec fn partitioned_groups(entries: Seq<(Seq<u8>, Seq<u8>)>, parts: Seq<Partition>) -> nat
    decreases parts.len(),
{
    if parts.len() == 0 {
        0
    } else {
        partitioned_groups(entries, parts.drop_last()) + reduced(
            entries_within(entries, parts.last()),
        ).len()
    }
}

proof fn lemma_partitioned_groups_up_to(
    entries: Seq<(Seq<u8>, Seq<u8>)>,
    parts: Seq<Partition>,
    alphabet: Seq<u8>,
    width: nat,
    m: int,
) -> (done: int)
    requires
        ascending(keys_of(entries)),
        alphabet.len() >= 1,
        is_partitioning(parts, alphabet, width, PartitionMode::Consecutive),
        first_key_error(entries, width) is None,
        0 <= m <= parts.len(),
    ensures
        0 <= done <= entries.len(),
        reaches(keys_of(entries), parts, m, done),
        partitioned_groups(entries, parts.take(m)) == reduced(entries.take(done)).len(),
    decreases m,
{
    if m == 0 {
        assert(entries.take(0) =~= Seq::empty());
        0
    } else {
        let keys = keys_of(entries);
        let before = lemma_partitioned_groups_up_to(entries, parts, alphabet, width, m - 1);
        let part = parts[m - 1];
        let (start, end) = lemma_partition_slice(entries, parts, m - 1);
        if m - 1 > 0 {
            lemma_split_unique(keys, part.lower(), start, before);
        }
        assert(parts.take(m).drop_last() =~= parts.take(m - 1));
        assert(parts.take(m).last() == part);
        lemma_prefix_shape(alphabet, width, m - 1);
        if m < parts.len() {
            lemma_prefix_shape(alphabet, width, m);
            assert(part.upper() == Some(parts[m].lower()));
        }
        let (first, second) = (entries.take(start), entries.subrange(start, end));
        if first.len() > 0 && second.len() > 0 {
            let (x, y) = (entries[start - 1].0, entries[start].0);
            lemma_keys_checked(entries, width, start - 1);
            lemma_keys_checked(entries, width, start);
            assert(!part.contains(x) && part.contains(y));
            if group_key(x) == group_key(y) {
                lemma_group_in_one_partition(part, width, x, y);
            }
        }
        lemma_reduced_concat(first, second);
        assert(first + second =~= entries.take(end));
        end
    }
}

/// No group is split between partitions: over the consecutive partitions of
/// a width, and entries whose grouping keys are at least that long, the
/// numbers of groups that the reduce stage emits partition by partition add
/// up to the number of groups that it emits for the entries as a whole.
pub proof fn lemma_groups_are_not_split(
    entries: Seq<(Seq<u8>, Seq<u8>)>,
    parts: Seq<Partition>,
    alphabet: Seq<u8>,
    width: nat,
)
    requires
        ascending(keys_of(entries)),
        alphabet.len() >= 1,
        is_partitioning(parts, alphabet, width, PartitionMode::Consecutive),
        first_key_error(entries, width) is None,
    ensures
        partitioned_groups(entries, parts) == reduced(entries).len(),
{
    let done = lemma_partitioned_groups_up_to(
        entries,
        parts,
        alphabet,
        width,
        parts.len() as int,
    );
    assert(parts.take(parts.len() as int) =~= parts);
    assert(entries.take(done) =~= entries);
}

/// Runs the reduce stage over a store: scans the consecutive hexadecimal
/// partitions of the given width one by one, reduces the entries of each
/// into a batch of its own, and commits the batch to the output store.
///
/// On success the answer holds the number of entries read, which is the
/// number of entries of the source, and the number of groups written.
/// Nothing is written unless the whole source can be reduced.
pub fn reduce_store(source: &MemStore, output: &mut MemStore, width: u32) -> (result: Result<
    JobStats,
    JobError,
>)
    ensures
        match reduce_error(source@, width as nat) {
            Some(e) => result == Err::<JobStats, JobError>(e) && final(output)@ == old(output)@,
            None => {
                &&& result is Ok
                &&& result->Ok_0.entries_processed == source@.len()
                &&& result->Ok_0.groups_emitted == reduced(source@).len()
                &&& contents(final(output)@) == write_all(contents(old(output)@), reduced(source@))
            },
        },
{
    proof {
        use_type_invariant(source);
        use_type_invariant(&*output);
    }
    let parts = match hex_partitions(width, PartitionMode::Consecutive) {
        Ok(parts) => parts,
        Err(e) => {
            return Err(e);
        },
    };
    match check_keys(source, width as usize) {
        Err(e) => {
            return Err(e);
        },
        Ok(_) => {},
    }
    let ghost before = contents(output@);
    let mut done: usize = 0;
    let mut groups: usize = 0;
    let mut i: usize = 0;
    while i < parts.len()
        invariant
            source.wf(),
            output.wf(),
            is_partitioning(parts@, hex_alphabet(), width as nat, PartitionMode::Consecutive),
            first_key_error(source@, width as nat) is None,
            i <= parts@.len(),
            done <= source@.len(),
            groups == reduced(source@.take(done as int)).len(),
            contents(output@) == write_all(before, reduced(source@.take(done as int))),
            reaches(source.keys(), parts@, i as int, done as int),
        decreases parts@.len() - i,
    {
        let (start, end) = scan_partition(source, &parts[i]);
        proof {
            let part = parts@[i as int];
            lemma_scan_advances(
                source.keys(),
                parts@,
                i as int,
                done as int,
                start as int,
                end as int,
            );
            lemma_prefix_shape(hex_alphabet(), width as nat, i as int);
            if i + 1 < parts@.len() {
                lemma_prefix_shape(hex_alphabet(), width as nat, i + 1);
                assert(part.upper() == Some(parts@[i + 1].lower()));
            }
            let (first, second) = (
                source@.take(start as int),
                source@.subrange(start as int, end as int),
            );
            if first.len() > 0 && second.len() > 0 {
                let (x, y) = (source@[start - 1].0, source@[start as int].0);
                assert(source.keys()[start - 1] == x && source.keys()[start as int] == y);
                lemma_keys_checked(source@, width as nat, start - 1);
                lemma_keys_checked(source@, width as nat, start as int);
                if group_key(x) == group_key(y) {
                    lemma_group_in_one_partition(part, width as nat, x, y);
                }
            }
            lemma_reduced_concat(first, second);
            assert(first + second =~= source@.take(end as int));
            lemma_reduced_shape(source@.take(end as int));
        }
        proof {
            let range = source@.subrange(start as int, end as int);
            assert forall|j: int| 0 <= j < range.len() implies key_error(
                (#[trigger] range[j]).0,
                width as nat,
            ) is None by {
                lemma_keys_checked(source@, width as nat, start + j);
            }
            lemma_no_key_error(range, width as nat);
        }
        let batch = match reduce_range(source, start, end, width as usize) {
            Ok(batch) => batch,
            Err(_) => unreached(),
        };
        output.commit(&batch);
        proof {
            use_type_invariant(&*output);
            lemma_write_all_concat(before, reduced(source@.take(start as int)), batch@);
        }
        groups = groups + batch.len();
        done = end;
        i += 1;
    }
    proof {
        assert(source@.take(done as int) =~= source@);
    }
    Ok(JobStats { entries_processed: done, groups_emitted: groups })
}

} // verus!
