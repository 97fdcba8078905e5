//! An ordered key-value store held in memory: entries sorted by key, range
//! iteration from any start key, point lookup, and batched writes.

use crate::keys::{
    ascending, compare_keys, keys_equal, lemma_lex_irreflexive, lemma_lex_le_iff_not_gt,
    lemma_lex_le_lt, lemma_lex_total, lemma_lex_transitive, lex_le, lex_lt, splits_at, KeyOrder,
};
use vstd::prelude::*;
use vstd::slice::slice_to_vec;

verus! {

/// One key with its value.
#[derive(Clone, Debug, PartialEq, Eq)]
pub struct Entry {
    pub key: Vec<u8>,
    pub value: Vec<u8>,
}

impl View for Entry {
    type V = (Seq<u8>, Seq<u8>);

    open spec fn view(&self) -> (Seq<u8>, Seq<u8>) {
        (self.key@, self.value@)
    }
}

/// The views of a list of entries, in list order.
pub open spec fn entry_views(entries: Seq<Entry>) -> Seq<(Seq<u8>, Seq<u8>)> {
    Seq::new(entries.len(), |i: int| entries[i]@)
}

/// The keys of a list of entries, in list order.
pub open spec fn keys_of(entries: Seq<(Seq<u8>, Seq<u8>)>) -> Seq<Seq<u8>> {
    Seq::new(entries.len(), |i: int| entries[i].0)
}

/// Whether the entries hold `key`.
pub open spec fn holds_key(entries: Seq<(Seq<u8>, Seq<u8>)>, key: Seq<u8>) -> bool {
    exists|i: int| 0 <= i < entries.len() && entries[i].0 == key
}

/// An index at which the entries hold `key`, if they hold it.
pub open spec fn index_of_key(entries: Seq<(Seq<u8>, Seq<u8>)>, key: Seq<u8>) -> int {
    choose|i: int| 0 <= i < entries.len() && entries[i].0 == key
}

/// The value stored under `key`, if the entries hold the key.
pub open spec fn lookup(entries: Seq<(Seq<u8>, Seq<u8>)>, key: Seq<u8>) -> Option<Seq<u8>> {
    if holds_key(entries, key) {
        Some(entries[index_of_key(entries, key)].1)
    } else {
        None
    }
}

/// The entries as a map from key to value.
pub open spec fn contents(entries: Seq<(Seq<u8>, Seq<u8>)>) -> Map<Seq<u8>, Seq<u8>> {
    Map::new(|key: Seq<u8>| lookup(entries, key) is Some, |key: Seq<u8>| lookup(entries, key)->0)
}

/// The map after the writes have been applied in order, a later write to a
/// key replacing an earlier one.
pub open spec fn write_all(
    before: Map<Seq<u8>, Seq<u8>>,
    writes: Seq<(Seq<u8>, Seq<u8>)>,
) -> Map<Seq<u8>, Seq<u8>>
    decreases writes.len(),
{
    if writes.len() == 0 {
        before
    } else {
        write_all(before, writes.drop_last()).insert(writes.last().0, writes.last().1)
    }
}

/// Applying two runs of writes one after the other applies their
/// concatenation.
pub proof fn lemma_write_all_concat(
    before: Map<Seq<u8>, Seq<u8>>,
    first: Seq<(Seq<u8>, Seq<u8>)>,
    second: Seq<(Seq<u8>, Seq<u8>)>,
)
    ensures
        write_all(write_all(before, first), second) == write_all(before, first + second),
    decreases second.len(),
{
    if second.len() > 0 {
        lemma_write_all_concat(before, first, second.drop_last());
        assert((first + second).drop_last() =~= first + second.drop_last());
    }
}

/// In a list with ascending keys, the entry at an index is what a lookup of
/// its key finds.
pub proof fn lemma_lookup_at(entries: Seq<(Seq<u8>, Seq<u8>)>, i: int)
    requires
        ascending(keys_of(entries)),
        0 <= i < entries.len(),
    ensures
        lookup(entries, entries[i].0) == Some(entries[i].1),
{
    let key = entries[i].0;
    let j = index_of_key(entries, key);
    let keys = keys_of(entries);
    assert(keys[i] == key && keys[j] == key);
    lemma_lex_irreflexive(key);
}

/// Inserting an entry with a new key at the index where its key splits the
/// list keeps the keys ascending and adds exactly that key to the contents.
pub proof fn lemma_insert_entry(
    before: Seq<(Seq<u8>, Seq<u8>)>,
    index: int,
    key: Seq<u8>,
    value: Seq<u8>,
)
    requires
        ascending(keys_of(before)),
        splits_at(keys_of(before), key, index),
        !holds_key(before, key),
    ensures
        ascending(keys_of(before.insert(index, (key, value)))),
        contents(before.insert(index, (key, value))) == contents(before).insert(key, value),
{
    let after = before.insert(index, (key, value));
    let (old_keys, new_keys) = (keys_of(before), keys_of(after));
    assert forall|a: int, b: int| 0 <= a < b < new_keys.len() implies lex_lt(
        new_keys[a],
        new_keys[b],
    ) by {
        let oa = if a < index { a } else { a - 1 };
        let ob = if b < index { b } else { b - 1 };
        if a == index {
            assert(new_keys[b] == old_keys[ob]);
        } else if b != index {
            assert(new_keys[a] == old_keys[oa] && new_keys[b] == old_keys[ob]);
        }
    }
    assert forall|k: Seq<u8>| lookup(after, k) == (if k == key {
        Some(value)
    } else {
        lookup(before, k)
    }) by {
        if k == key {
            lemma_lookup_at(after, index);
        } else if holds_key(before, k) {
            let j = index_of_key(before, k);
            let moved = if j < index { j } else { j + 1 };
            lemma_lookup_at(after, moved);
        }
    }
}

/// Replacing the value of an entry keeps the keys and changes the contents
/// at that key only.
pub proof fn lemma_replace_value(
    before: Seq<(Seq<u8>, Seq<u8>)>,
    index: int,
    value: Seq<u8>,
)
    requires
        ascending(keys_of(before)),
        0 <= index < before.len(),
    ensures
        keys_of(before.update(index, (before[index].0, value))) == keys_of(before),
        contents(before.update(index, (before[index].0, value))) == contents(before).insert(
            before[index].0,
            value,
        ),
{
    let key = before[index].0;
    let after = before.update(index, (key, value));
    assert(keys_of(after) =~= keys_of(before));
    assert forall|k: Seq<u8>| lookup(after, k) == (if k == key {
        Some(value)
    } else {
        lookup(before, k)
    }) by {
        if k == key {
            lemma_lookup_at(after, index);
        } else if holds_key(before, k) {
            let j = index_of_key(before, k);
            lemma_lookup_at(after, j);
        }
    }
}

/// Writes collected by one worker, to be committed to a store as a whole.
pub struct WriteBatch {
    writes: Vec<Entry>,
}

impl View for WriteBatch {
    type V = Seq<(Seq<u8>, Seq<u8>)>;

    /// The pending writes, oldest first.
    closed spec fn view(&self) -> Seq<(Seq<u8>, Seq<u8>)> {
        entry_views(self.writes@)
    }
}

impl WriteBatch {
    /// A batch without writes.
    pub fn new() -> (batch: WriteBatch)
        ensures
            batch@ == Seq::<(Seq<u8>, Seq<u8>)>::empty(),
    {
        WriteBatch { writes: Vec::new() }
    }

    /// Appends a write.
    pub fn put(&mut self, key: Vec<u8>, value: Vec<u8>)
        ensures
            final(self)@ == old(self)@.push((key@, value@)),
    {
        self.writes.push(Entry { key, value });
    }

    /// The number of pending writes.
    pub fn len(&self) -> (n: usize)
        ensures
            n == self@.len(),
    {
        self.writes.len()
    }

    /// The pending write at a position.
    pub fn entry(&self, index: usize) -> (entry: &Entry)
        requires
            index < self@.len(),
        ensures
            entry@ == self@[index as int],
    {
        &self.writes[index]
    }
}

/// An ordered store in memory.
pub struct MemStore {
    entries: Vec<Entry>,
}

impl View for MemStore {
    type V = Seq<(Seq<u8>, Seq<u8>)>;

    /// The entries in key order: what an iteration from the start yields.
    closed spec fn view(&self) -> Seq<(Seq<u8>, Seq<u8>)> {
        entry_views(self.entries@)
    }
}

impl MemStore {
    /// The store is well formed: its keys are strictly ascending. Every
    /// store is, at all times.
    #[verifier::type_invariant]
    pub open spec fn wf(&self) -> bool {
        ascending(keys_of(self@))
    }

    /// The keys in order.
    pub open spec fn keys(&self) -> Seq<Seq<u8>> {
        keys_of(self@)
    }

    /// An empty store.
    pub fn new() -> (store: MemStore)
        ensures
            store@ == Seq::<(Seq<u8>, Seq<u8>)>::empty(),
    {
        MemStore { entries: Vec::new() }
    }

    /// The number of entries.
    pub fn len(&self) -> (n: usize)
        ensures
            n == self@.len(),
    {
        self.entries.len()
    }

    /// Whether the store holds nothing.
    pub fn is_empty(&self) -> (empty: bool)
        ensures
            empty == (self@.len() == 0),
    {
        self.entries.len() == 0
    }

    /// The entry at a position of the key order.
    pub fn entry(&self, index: usize) -> (entry: &Entry)
        requires
            index < self@.len(),
        ensures
            entry@ == self@[index as int],
    {
        &self.entries[index]
    }

    /// Positions a cursor: the index of the first entry whose key is not
    /// below `start`, or the length of the store where there is none.
    pub fn seek(&self, start: &[u8]) -> (index: usize)
        ensures
            splits_at(self.keys(), start@, index as int),
    {
        proof {
            use_type_invariant(self);
        }
        let mut lo: usize = 0;
        let mut hi: usize = self.entries.len();
        while lo < hi
            invariant
                self.wf(),
                0 <= lo <= hi <= self@.len(),
                self@.len() == self.entries@.len(),
                forall|j: int| 0 <= j < lo ==> lex_lt(#[trigger] self.keys()[j], start@),
                forall|j: int| hi <= j < self@.len() ==> lex_le(start@, #[trigger] self.keys()[j]),
            decreases hi - lo,
        {
            let mid: usize = lo + (hi - lo) / 2;
            let ghost mid_key = self.keys()[mid as int];
            match compare_keys(self.entries[mid].key.as_slice(), start) {
                KeyOrder::Less => {
                    proof {
                        assert forall|j: int| 0 <= j < mid + 1 implies lex_lt(
                            #[trigger] self.keys()[j],
                            start@,
                        ) by {
                            if j < mid {
                                lemma_lex_transitive(self.keys()[j], mid_key, start@);
                            }
                        }
                    }
                    lo = mid + 1;
                },
                _ => {
                    proof {
                        lemma_lex_total(mid_key, start@);
                        assert forall|j: int| mid <= j < self@.len() implies lex_le(
                            start@,
                            #[trigger] self.keys()[j],
                        ) by {
                            if mid < j {
                                lemma_lex_le_lt(start@, mid_key, self.keys()[j]);
                            }
                        }
                    }
                    hi = mid;
                },
            }
        }
        lo
    }

    /// Looks a key up.
    pub fn get(&self, key: &[u8]) -> (found: Option<&Vec<u8>>)
        ensures
            match found {
                Some(value) => lookup(self@, key@) == Some(value@),
                None => lookup(self@, key@) is None,
            },
    {
        proof {
            use_type_invariant(self);
        }
        let index = self.seek(key);
        if index < self.entries.len() {
            match compare_keys(self.entries[index].key.as_slice(), key) {
                KeyOrder::Equal => {
                    proof {
                        lemma_lookup_at(self@, index as int);
                    }
                    return Some(&self.entries[index].value);
                },
                _ => {},
            }
        }
        proof {
            if lookup(self@, key@) is Some {
                let j = index_of_key(self@, key@);
                assert(self.keys()[j] == key@);
                if j >= index {
                    lemma_lex_le_iff_not_gt(key@, self.keys()[index as int]);
                }
            }
        }
        None
    }

    /// Stores `value` under `key`, replacing what the key held before.
    pub fn put(&mut self, key: Vec<u8>, value: Vec<u8>)
        ensures
            contents(final(self)@) == contents(old(self)@).insert(key@, value@),
            final(self)@.len() == old(self)@.len() + (if holds_key(old(self)@, key@) {
                0int
            } else {
                1int
            }),
    {
        proof {
            use_type_invariant(&*self);
        }
        let index = self.seek(key.as_slice());
        let ghost before = self@;
        let mut present = false;
        if index < self.entries.len() {
            present = keys_equal(self.entries[index].key.as_slice(), key.as_slice());
        }
        proof {
            if holds_key(before, key@) {
                let j = index_of_key(before, key@);
                assert(self.keys()[j] == key@);
                if j > index {
                    lemma_lex_le_iff_not_gt(key@, self.keys()[index as int]);
                }
            }
        }
        let mut entries: Vec<Entry> = Vec::new();
        core::mem::swap(&mut entries, &mut self.entries);
        if present {
            entries[index] = Entry { key, value };
            proof {
                lemma_replace_value(before, index as int, value@);
                assert(entry_views(entries@) =~= before.update(index as int, (key@, value@)));
            }
        } else {
            entries.insert(index, Entry { key, value });
            proof {
                lemma_insert_entry(before, index as int, key@, value@);
                assert(entry_views(entries@) =~= before.insert(index as int, (key@, value@)));
            }
        }
        self.entries = entries;
    }

    /// Applies the writes of a batch in order.
    pub fn commit(&mut self, batch: &WriteBatch)
        ensures
            contents(final(self)@) == write_all(contents(old(self)@), batch@),
    {
        proof {
            use_type_invariant(&*self);
        }
        let mut i: usize = 0;
        while i < batch.len()
            invariant
                self.wf(),
                i <= batch@.len(),
                contents(self@) == write_all(contents(old(self)@), batch@.take(i as int)),
            decreases batch@.len() - i,
        {
            let write = batch.entry(i);
            let key = slice_to_vec(write.key.as_slice());
            let value = slice_to_vec(write.value.as_slice());
            self.put(key, value);
            proof {
                use_type_invariant(&*self);
                assert(batch@.take(i + 1).drop_last() =~= batch@.take(i as int));
            }
            i += 1;
        }
        proof {
            assert(batch@.take(i as int) =~= batch@);
        }
    }
}

} // verus!
