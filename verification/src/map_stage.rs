//! The map stage: every source entry becomes one entry whose key sorts the
//! entries of one group together and stays unique within the group.

use crate::error::JobError;
use crate::hex_text::{hex_encode, hex_text};
use crate::partition::{hex_partitions, is_consecutive, PartitionMode};
use crate::scan::{lemma_scan_advances, reaches, scan_partition, width_error};
use crate::store::{contents, lemma_write_all_concat, write_all, Entry, MemStore, WriteBatch};
use vstd::pervasive::unreached;
use vstd::prelude::*;
use vstd::slice::slice_to_vec;
use vstd::utf8::valid_utf8;

verus! {

/// The byte between the grouping key and the disambiguating suffix of a
/// mapped key: a full stop.
pub const SEPARATOR: u8 = 0x2e;

/// The key under which the map stage files an entry: the value, the
/// separator, and the hexadecimal text of the source key.
pub open spec fn mapped_key(key: Seq<u8>, value: Seq<u8>) -> Seq<u8> {
    value + seq![SEPARATOR] + hex_text(key)
}

/// What the map stage makes of an entry: the mapped key, with the source
/// key as the value.
pub open spec fn mapped_entry(entry: (Seq<u8>, Seq<u8>)) -> (Seq<u8>, Seq<u8>) {
    (mapped_key(entry.0, entry.1), entry.0)
}

/// The mapped entries of a list of entries, in list order.
pub open spec fn mapped_entries(entries: Seq<(Seq<u8>, Seq<u8>)>) -> Seq<(Seq<u8>, Seq<u8>)> {
    Seq::new(entries.len(), |i: int| mapped_entry(entries[i]))
}

/// Why a value cannot become a sort key, if it cannot: it is not UTF-8
/// text, or it is text that holds the separator.
pub open spec fn value_error(value: Seq<u8>) -> Option<JobError> {
    if !valid_utf8(value) {
        Some(JobError::ValueNotText)
    } else if value.contains(SEPARATOR) {
        Some(JobError::SeparatorInValue)
    } else {
        None
    }
}

/// The error of the first entry, in list order, whose value cannot become a
/// sort key.
pub open spec fn first_value_error(entries: Seq<(Seq<u8>, Seq<u8>)>) -> Option<JobError>
    decreases entries.len(),
{
    if entries.len() == 0 {
        None
    } else {
        match first_value_error(entries.drop_last()) {
            Some(e) => Some(e),
            None => value_error(entries.last().1),
        }
    }
}

/// Why a map job does not run, if it does not: the width is judged as for
/// any job over hexadecimal partitions, then the values.
pub open spec fn map_error(entries: Seq<(Seq<u8>, Seq<u8>)>, width: nat) -> Option<JobError> {
    match width_error(width) {
        Some(e) => Some(e),
        None => first_value_error(entries),
    }
}

/// Calls `core::str::from_utf8` and says whether it accepted the bytes. The
/// contract claims what that function documents: it accepts exactly the
/// byte strings that are well-formed UTF-8.
#[verifier::external_body]
fn is_utf8(bytes: &[u8]) -> (ok: bool)
    ensures
        ok == valid_utf8(bytes@),
{
    core::str::from_utf8(bytes).is_ok()
}

/// Whether `bytes` holds `byte`.
pub fn holds_byte(bytes: &[u8], byte: u8) -> (found: bool)
    ensures
        found == bytes@.contains(byte),
{
    let mut i: usize = 0;
    while i < bytes.len()
        invariant
            i <= bytes@.len(),
            forall|j: int| 0 <= j < i ==> bytes@[j] != byte,
        decreases bytes.len() - i,
    {
        if bytes[i] == byte {
            return true;
        }
        i += 1;
    }
    false
}

/// Checks that a value can become a sort key.
pub fn check_value(value: &[u8]) -> (result: Result<(), JobError>)
    ensures
        match value_error(value@) {
            Some(e) => result == Err::<(), JobError>(e),
            None => result is Ok,
        },
{
    if !is_utf8(value) {
        Err(JobError::ValueNotText)
    } else if holds_byte(value, SEPARATOR) {
        Err(JobError::SeparatorInValue)
    } else {
        Ok(())
    }
}

/// Maps one entry: the new key is the value, the separator and the
/// hexadecimal text of the key; the new value is the key.
///
/// A value that is not UTF-8 text is turned down with `ValueNotText`, and
/// text that holds the separator with `SeparatorInValue`.
pub fn map_entry(key: &[u8], value: &[u8]) -> (result: Result<Entry, JobError>)
    ensures
        match value_error(value@) {
            Some(e) => result == Err::<Entry, JobError>(e),
            None => result is Ok && result->Ok_0@ == mapped_entry((key@, value@)),
        },
{
    match check_value(value) {
        Err(e) => {
            return Err(e);
        },
        Ok(_) => {},
    }
    let mut new_key = slice_to_vec(value);
    new_key.push(SEPARATOR);
    let mut suffix = hex_encode(key);
    new_key.append(&mut suffix);
    let new_value = slice_to_vec(key);
    Ok(Entry { key: new_key, value: new_value })
}

/// Where no value is at fault, the value at every index can become a sort
/// key.
pub proof fn lemma_values_checked(entries: Seq<(Seq<u8>, Seq<u8>)>, index: int)
    requires
        first_value_error(entries) is None,
        0 <= index < entries.len(),
    ensures
        value_error(entries[index].1) is None,
    decreases entries.len(),
{
    if index < entries.len() - 1 {
        lemma_values_checked(entries.drop_last(), index);
    }
}

/// Checks the values of a store in key order and reports the first fault.
pub fn check_values(source: &MemStore) -> (result: Result<(), JobError>)
    ensures
        match first_value_error(source@) {
            Some(e) => result == Err::<(), JobError>(e),
            None => result is Ok,
        },
{
    let mut i: usize = 0;
    while i < source.len()
        invariant
            i <= source@.len(),
            first_value_error(source@.take(i as int)) is None,
        decreases source@.len() - i,
    {
        proof {
            assert(source@.take(i + 1).drop_last() =~= source@.take(i as int));
        }
        match check_value(source.entry(i).value.as_slice()) {
            Err(e) => {
                proof {
                    lemma_first_error_stays(source@, i + 1);
                }
                return Err(e);
            },
            Ok(_) => {},
        }
        i += 1;
    }
    proof {
        assert(source@.take(i as int) =~= source@);
    }
    Ok(())
}

proof fn lemma_first_error_stays(entries: Seq<(Seq<u8>, Seq<u8>)>, n: int)
    requires
        0 <= n <= entries.len(),
        first_value_error(entries.take(n)) is Some,
    ensures
        first_value_error(entries) == first_value_error(entries.take(n)),
    decreases entries.len() - n,
{
    if n < entries.len() {
        assert(entries.take(n + 1).drop_last() =~= entries.take(n));
        lemma_first_error_stays(entries, n + 1);
    } else {
        assert(entries.take(n) =~= entries);
    }
}

/// Runs the map stage over a store: scans the consecutive hexadecimal
/// partitions of the given width one by one, maps the entries of each into
/// a batch of its own, and commits the batch to the output store.
///
/// On success the answer is the number of entries mapped, which is the
/// number of entries of the source. Nothing is written unless the whole
/// source can be mapped.
pub fn map_store(source: &MemStore, output: &mut MemStore, width: u32) -> (result: Result<
    usize,
    JobError,
>)
    ensures
        match map_error(source@, width as nat) {
            Some(e) => result == Err::<usize, JobError>(e) && final(output)@ == old(output)@,
            None => {
                &&& result is Ok
                &&& result->Ok_0 == source@.len()
                &&& contents(final(output)@) == write_all(
                    contents(old(output)@),
                    mapped_entries(source@),
                )
            },
        },
{
    proof {
        use_type_invariant(source);
        use_type_invariant(&*output);
    }
    let parts = match hex_partitions(width, PartitionMode::Consecutive) {
        Ok(parts) => parts,
        Err(e) => {
            return Err(e);
        },
    };
    match check_values(source) {
        Err(e) => {
            return Err(e);
        },
        Ok(_) => {},
    }
    let ghost before = contents(output@);
    let mut done: usize = 0;
    let mut i: usize = 0;
    while i < parts.len()
        invariant
            source.wf(),
            output.wf(),
            is_consecutive(parts@),
            first_value_error(source@) is None,
            i <= parts@.len(),
            done <= source@.len(),
            contents(output@) == write_all(before, mapped_entries(source@.take(done as int))),
            reaches(source.keys(), parts@, i as int, done as int),
        decreases parts@.len() - i,
    {
        let (start, end) = scan_partition(source, &parts[i]);
        proof {
            lemma_scan_advances(
                source.keys(),
                parts@,
                i as int,
                done as int,
                start as int,
                end as int,
            );
        }
        let mut batch = WriteBatch::new();
        let mut k: usize = start;
        while k < end
            invariant
                first_value_error(source@) is None,
                start <= k <= end <= source@.len(),
                batch@ == mapped_entries(source@.subrange(start as int, k as int)),
            decreases end - k,
        {
            let entry = source.entry(k);
            proof {
                lemma_values_checked(source@, k as int);
            }
            match map_entry(entry.key.as_slice(), entry.value.as_slice()) {
                Ok(mapped) => {
                    batch.put(mapped.key, mapped.value);
                    proof {
                        assert(batch@ =~= mapped_entries(
                            source@.subrange(start as int, k + 1),
                        ));
                    }
                },
                Err(_) => unreached(),
            }
            k += 1;
        }
        output.commit(&batch);
        proof {
            use_type_invariant(&*output);
            let earlier = mapped_entries(source@.take(start as int));
            lemma_write_all_concat(before, earlier, batch@);
            assert(earlier + batch@ =~= mapped_entries(source@.take(end as int)));
        }
        done = end;
        i += 1;
    }
    proof {
        assert(source@.take(done as int) =~= source@);
    }
    Ok(done)
}

} // verus!
