//! What a map step followed by a reduce step makes of a store: one group
//! for each distinct value, holding the keys that carried the value.

use crate::error::JobError;
use crate::hex_text::{
    hex_alphabet, hex_text, is_hex_digit, lemma_hex_text_injective, lemma_hex_text_order,
};
use crate::job::JobStats;
use crate::keys::{
    ascending, decides_less_at, lemma_ascending_unique, lemma_lex_asymmetric,
    lemma_lex_irreflexive, lemma_lex_transitive, lex_lt,
};
use crate::map_stage::{
    first_value_error, lemma_values_checked, map_error, map_store, mapped_entries, mapped_entry,
    mapped_key, SEPARATOR,
};
use crate::partition::{is_partitioning, Partition, PartitionMode};
use crate::reduce_stage::{
    first_key_error, group_key, is_last_separator, key_error, lemma_first_key_error_found,
    lemma_groups_are_not_split, lemma_keys_checked, lemma_no_key_error, partitioned_groups,
    reduce_store, reduced, DELIMITER,
};
use crate::scan::{
    all_hex_heads, has_hex_head, holders, lemma_hex_head_holder, lemma_modes_agree,
    lemma_partition_counts_add_up, total_within,
};
use crate::store::{contents, index_of_key, keys_of, lemma_lookup_at, write_all, MemStore};
use vstd::prelude::*;

verus! {

/// The values of a list of entries, in list order.
pub open spec fn values_of(entries: Seq<(Seq<u8>, Seq<u8>)>) -> Seq<Seq<u8>> {
    Seq::new(entries.len(), |i: int| entries[i].1)
}

/// The grouping keys of a list of entries, in list order.
pub open spec fn groups_of(entries: Seq<(Seq<u8>, Seq<u8>)>) -> Seq<Seq<u8>> {
    Seq::new(entries.len(), |i: int| group_key(entries[i].0))
}

/// The items that carry the given tag, in list order. The two lists run in
/// parallel: `tags[i]` is the tag of `items[i]`.
pub open spec fn select(items: Seq<Seq<u8>>, tags: Seq<Seq<u8>>, tag: Seq<u8>) -> Seq<Seq<u8>>
    decreases items.len(),
{
    if items.len() == 0 {
        Seq::empty()
    } else {
        let rest = select(items.drop_last(), tags.drop_last(), tag);
        if tags.last() == tag {
            rest.push(items.last())
        } else {
            rest
        }
    }
}

/// The keys of the entries that hold the given value, in list order.
pub open spec fn keys_with_value(entries: Seq<(Seq<u8>, Seq<u8>)>, value: Seq<u8>) -> Seq<
    Seq<u8>,
> {
    select(keys_of(entries), values_of(entries), value)
}

/// The byte strings with the delimiter between them.
pub open spec fn joined(parts: Seq<Seq<u8>>) -> Seq<u8>
    decreases parts.len(),
{
    if parts.len() == 0 {
        Seq::empty()
    } else if parts.len() == 1 {
        parts[0]
    } else {
        joined(parts.drop_last()) + seq![DELIMITER] + parts.last()
    }
}

/// One grouping key comes before another where the mapped keys of the first
/// sort before the mapped keys of the second.
pub open spec fn group_before(a: Seq<u8>, b: Seq<u8>) -> bool {
    lex_lt(a.push(SEPARATOR), b.push(SEPARATOR))
}

/// The grouping key of a mapped key is the value it was made from.
pub proof fn lemma_mapped_group(key: Seq<u8>, value: Seq<u8>)
    requires
        !value.contains(SEPARATOR),
    ensures
        is_last_separator(mapped_key(key, value), value.len() as int),
        group_key(mapped_key(key, value)) == value,
        mapped_key(key, value).len() == value.len() + 1 + 2 * key.len(),
{
}

/// Mapped keys are unique: two of them are equal only where they were made
/// from the same key and the same value.
pub proof fn lemma_mapped_key_injective(
    key_a: Seq<u8>,
    value_a: Seq<u8>,
    key_b: Seq<u8>,
    value_b: Seq<u8>,
)
    requires
        !value_a.contains(SEPARATOR),
        !value_b.contains(SEPARATOR),
        mapped_key(key_a, value_a) == mapped_key(key_b, value_b),
    ensures
        key_a == key_b,
        value_a == value_b,
{
    lemma_mapped_group(key_a, value_a);
    let n = (value_a.len() + 1) as int;
    assert(mapped_key(key_a, value_a).skip(n) =~= hex_text(key_a));
    assert(mapped_key(key_b, value_b).skip(n) =~= hex_text(key_b));
    lemma_hex_text_injective(key_a, key_b);
}

/// Mapped keys sort by group first and by source key within a group.
pub proof fn lemma_mapped_key_order(
    key_a: Seq<u8>,
    value_a: Seq<u8>,
    key_b: Seq<u8>,
    value_b: Seq<u8>,
)
    requires
        !value_a.contains(SEPARATOR),
        !value_b.contains(SEPARATOR),
        lex_lt(mapped_key(key_a, value_a), mapped_key(key_b, value_b)),
    ensures
        if value_a == value_b {
            lex_lt(key_a, key_b)
        } else {
            group_before(value_a, value_b)
        },
{
    let (ma, mb) = (mapped_key(key_a, value_a), mapped_key(key_b, value_b));
    let (ta, tb) = (value_a.push(SEPARATOR), value_b.push(SEPARATOR));
    let d = choose|d: int| decides_less_at(ma, mb, d);
    assert(forall|j: int| 0 <= j < ta.len() ==> ma[j] == ta[j]);
    if value_a == value_b {
        let n = ta.len() as int;
        let (ha, hb) = (hex_text(key_a), hex_text(key_b));
        assert(forall|j: int| 0 <= j < ha.len() ==> ha[j] == ma[n + j]);
        assert(decides_less_at(ha, hb, d - n));
        lemma_hex_text_order(key_a, key_b);
    } else {
        let (la, lb) = (value_a.len() as int, value_b.len() as int);
        if d > la {
            assert(ma[la] == mb[la]);
            if la == lb {
                assert forall|j: int| 0 <= j < la implies value_a[j] == value_b[j] by {
                    assert(ma[j] == mb[j]);
                }
                assert(value_a =~= value_b);
            }
        }
        if d > lb {
            assert(ma[lb] == mb[lb]);
        }
        assert(decides_less_at(ta, tb, d));
    }
}

/// Some item at an index carries the tag and is `item`.
pub open spec fn carries(
    items: Seq<Seq<u8>>,
    tags: Seq<Seq<u8>>,
    tag: Seq<u8>,
    item: Seq<u8>,
) -> bool {
    exists|i: int| 0 <= i < items.len() && tags[i] == tag && items[i] == item
}

/// An index at which an item carries the tag and is `item`, if there is one.
pub open spec fn carrier(
    items: Seq<Seq<u8>>,
    tags: Seq<Seq<u8>>,
    tag: Seq<u8>,
    item: Seq<u8>,
) -> int {
    choose|i: int| 0 <= i < items.len() && tags[i] == tag && items[i] == item
}

/// Selecting by tag keeps exactly the items that carry the tag.
pub proof fn lemma_select_items(items: Seq<Seq<u8>>, tags: Seq<Seq<u8>>, tag: Seq<u8>)
    requires
        items.len() == tags.len(),
    ensures
        forall|item: Seq<u8>|
            select(items, tags, tag).contains(item) <==> #[trigger] carries(
                items,
                tags,
                tag,
                item,
            ),
    decreases items.len(),
{
    let chosen = select(items, tags, tag);
    if items.len() > 0 {
        let (head, head_tags) = (items.drop_last(), tags.drop_last());
        let rest = select(head, head_tags, tag);
        lemma_select_items(head, head_tags, tag);
        assert forall|item: Seq<u8>| chosen.contains(item) <==> carries(
            items,
            tags,
            tag,
            item,
        ) by {
            if chosen.contains(item) {
                let k = choose|k: int| 0 <= k < chosen.len() && chosen[k] == item;
                if k < rest.len() {
                    assert(carries(head, head_tags, tag, item));
                }
            }
            if carries(items, tags, tag, item) {
                let w = carrier(items, tags, tag, item);
                if w < head.len() {
                    assert(head_tags[w] == tag && head[w] == item);
                    assert(carries(head, head_tags, tag, item));
                    let k = choose|k: int| 0 <= k < rest.len() && rest[k] == item;
                    assert(chosen[k] == item);
                } else {
                    assert(chosen[chosen.len() - 1] == item);
                }
            }
        }
    } else {
        assert forall|item: Seq<u8>| chosen.contains(item) <==> carries(
            items,
            tags,
            tag,
            item,
        ) by {}
    }
}

/// Selecting by tag keeps the order: where the items that carry the tag
/// ascend, so does the selection.
pub proof fn lemma_select_ascending(items: Seq<Seq<u8>>, tags: Seq<Seq<u8>>, tag: Seq<u8>)
    requires
        items.len() == tags.len(),
        forall|i: int, j: int|
            0 <= i < j < items.len() && tags[i] == tag && tags[j] == tag ==> lex_lt(
                items[i],
                items[j],
            ),
    ensures
        ascending(select(items, tags, tag)),
    decreases items.len(),
{
    if items.len() > 0 {
        let (head, head_tags) = (items.drop_last(), tags.drop_last());
        let rest = select(head, head_tags, tag);
        lemma_select_ascending(head, head_tags, tag);
        lemma_select_items(head, head_tags, tag);
        if tags.last() == tag {
            let chosen = rest.push(items.last());
            assert forall|a: int, b: int| 0 <= a < b < chosen.len() implies lex_lt(
                chosen[a],
                chosen[b],
            ) by {
                if b == rest.len() {
                    assert(carries(head, head_tags, tag, rest[a]));
                }
            }
        }
    }
}

/// Two ascending lists that hold the same items are the same list.
pub proof fn lemma_ascending_lists_equal(a: Seq<Seq<u8>>, b: Seq<Seq<u8>>)
    requires
        ascending(a),
        ascending(b),
        forall|x: Seq<u8>| a.contains(x) <==> b.contains(x),
    ensures
        a == b,
    decreases a.len(),
{
    if a.len() == 0 {
        if b.len() > 0 {
            assert(b.contains(b[0]));
        }
    } else {
        let top = a.last();
        assert(a.contains(top));
        let q = choose|q: int| 0 <= q < b.len() && b[q] == top;
        assert(b.contains(b.last()));
        let p = choose|p: int| 0 <= p < a.len() && a[p] == b.last();
        if q < b.len() - 1 {
            if p < a.len() - 1 {
                lemma_lex_asymmetric(top, b.last());
            }
        }
        let (a0, b0) = (a.drop_last(), b.drop_last());
        assert forall|x: Seq<u8>| a0.contains(x) <==> b0.contains(x) by {
            lemma_lex_irreflexive(top);
            if a0.contains(x) {
                assert(a.contains(x));
                let j = choose|j: int| 0 <= j < b.len() && b[j] == x;
                assert(b0[j] == x);
            }
            if b0.contains(x) {
                assert(b.contains(x));
                let i = choose|i: int| 0 <= i < a.len() && a[i] == x;
                assert(a0[i] == x);
            }
        }
        lemma_ascending_lists_equal(a0, b0);
        assert(a =~= a0.push(top));
    }
}

/// The grouping keys are in the order in which the store holds the groups:
/// of any two entries, the later one belongs to the same group as the
/// earlier one or to a group that comes after it.
pub open spec fn groups_in_order(groups: Seq<Seq<u8>>) -> bool {
    forall|i: int, j: int|
        0 <= i < j < groups.len() ==> groups[i] == groups[j] || group_before(groups[i], groups[j])
}

/// What the reduce stage emits describes the groups of its input: the
/// emitted grouping keys come in strictly ascending group order, each is the
/// grouping key of some entry, and each value joins the values of the
/// entries of its group.
pub open spec fn describes_groups(
    emitted: Seq<(Seq<u8>, Seq<u8>)>,
    entries: Seq<(Seq<u8>, Seq<u8>)>,
) -> bool {
    &&& forall|r: int, s: int|
        0 <= r < s < emitted.len() ==> group_before(emitted[r].0, emitted[s].0)
    &&& forall|r: int|
        0 <= r < emitted.len() ==> groups_of(entries).contains((#[trigger] emitted[r]).0)
    &&& forall|i: int|
        0 <= i < entries.len() ==> keys_of(emitted).contains(#[trigger] groups_of(entries)[i])
    &&& forall|r: int|
        0 <= r < emitted.len() ==> {
            let members = select(values_of(entries), groups_of(entries), (#[trigger] emitted[r]).0);
            members.len() > 0 && emitted[r].1 == joined(members)
        }
}

proof fn lemma_select_none(items: Seq<Seq<u8>>, tags: Seq<Seq<u8>>, tag: Seq<u8>)
    requires
        items.len() == tags.len(),
        !tags.contains(tag),
    ensures
        select(items, tags, tag).len() == 0,
{
    lemma_select_items(items, tags, tag);
    let chosen = select(items, tags, tag);
    if chosen.len() > 0 {
        assert(carries(items, tags, tag, chosen[0]));
    }
}

/// Where the groups of the input come in order, the reduce stage emits
/// every group once.
pub proof fn lemma_reduced_groups(entries: Seq<(Seq<u8>, Seq<u8>)>)
    requires
        groups_in_order(groups_of(entries)),
    ensures
        describes_groups(reduced(entries), entries),
    decreases entries.len(),
{
    let emitted = reduced(entries);
    if entries.len() > 0 {
        let head = entries.drop_last();
        let before = reduced(head);
        let (groups, values) = (groups_of(entries), values_of(entries));
        let (head_groups, head_values) = (groups_of(head), values_of(head));
        let group = group_key(entries.last().0);
        let value = entries.last().1;
        assert(groups.drop_last() =~= head_groups);
        assert(values.drop_last() =~= head_values);
        assert(groups.last() == group && values.last() == value);
        lemma_reduced_groups(head);
        let joins = before.len() > 0 && before.last().0 == group;
        if !joins && before.len() > 0 {
            let last = before.len() - 1;
            assert(group_before(before[last].0, group));
            assert forall|r: int| 0 <= r < before.len() implies group_before(
                (#[trigger] before[r]).0,
                group,
            ) by {
                if r < last {
                    assert(group_before(before[r].0, before[last].0));
                    lemma_lex_transitive(
                        before[r].0.push(SEPARATOR),
                        before[last].0.push(SEPARATOR),
                        group.push(SEPARATOR),
                    );
                }
            }
        }
        assert forall|r: int| 0 <= r < before.len() && !(joins && r == before.len() - 1)
            implies (#[trigger] before[r]).0 != group by {
            if joins {
                assert(group_before(before[r].0, before[before.len() - 1].0));
            }
        }
        assert forall|i: int| 0 <= i < entries.len() implies keys_of(emitted).contains(
            #[trigger] groups[i],
        ) by {
            if i < head.len() {
                let r = choose|r: int|
                    0 <= r < keys_of(before).len() && keys_of(before)[r] == head_groups[i];
                assert(keys_of(emitted)[r] == groups[i]);
            } else {
                assert(keys_of(emitted)[emitted.len() - 1] == group);
            }
        }
        assert forall|r: int| 0 <= r < emitted.len() implies ({
            let members = select(values, groups, (#[trigger] emitted[r]).0);
            members.len() > 0 && emitted[r].1 == joined(members)
        }) by {
            if r == emitted.len() - 1 {
                if joins {
                    let earlier = select(head_values, head_groups, group);
                    assert(earlier.push(value).drop_last() =~= earlier);
                } else {
                    lemma_select_none(head_values, head_groups, group);
                }
            }
        }
    }
}

/// The pieces that the delimiter cuts a byte string into. A string without
/// a delimiter is one piece; every delimiter starts a new piece, which may
/// be empty.
pub open spec fn pieces(bytes: Seq<u8>) -> Seq<Seq<u8>>
    decreases bytes.len(),
{
    if bytes.len() == 0 {
        seq![Seq::empty()]
    } else {
        let before = pieces(bytes.drop_last());
        if bytes.last() == DELIMITER {
            before.push(Seq::empty())
        } else {
            before.drop_last().push(before.last().push(bytes.last()))
        }
    }
}

proof fn lemma_pieces_append(head: Seq<u8>, tail: Seq<u8>)
    requires
        !tail.contains(DELIMITER),
    ensures
        pieces(head).len() >= 1,
        pieces(head + tail) == pieces(head).drop_last().push(pieces(head).last() + tail),
    decreases tail.len(),
{
    if tail.len() > 0 {
        let shorter = tail.drop_last();
        lemma_pieces_append(head, shorter);
        assert((head + tail).drop_last() =~= head + shorter);
        let grown = pieces(head).last() + shorter;
        assert(grown.push(tail.last()) =~= pieces(head).last() + tail);
    }
}

/// Cutting at the delimiter undoes joining with it: the pieces of the
/// joined parts are the parts, as long as there is a part and no part holds
/// the delimiter.
pub proof fn lemma_pieces_of_joined(parts: Seq<Seq<u8>>)
    requires
        parts.len() >= 1,
        forall|i: int| 0 <= i < parts.len() ==> !(#[trigger] parts[i]).contains(DELIMITER),
    ensures
        pieces(joined(parts)) == parts,
    decreases parts.len(),
{
    let nothing = Seq::<u8>::empty();
    if parts.len() == 1 {
        lemma_pieces_append(nothing, parts[0]);
    } else {
        let head = parts.drop_last();
        lemma_pieces_of_joined(head);
        let cut = joined(head).push(DELIMITER);
        assert(cut.drop_last() =~= joined(head));
        lemma_pieces_append(cut, parts.last());
        assert(cut + parts.last() =~= joined(parts));
    }
}

/// Writes with distinct keys all survive: the map that they leave behind
/// holds exactly their keys, each with the value written for it.
pub proof fn lemma_write_all_distinct(writes: Seq<(Seq<u8>, Seq<u8>)>)
    requires
        keys_of(writes).no_duplicates(),
    ensures
        write_all(Map::empty(), writes).dom() == keys_of(writes).to_set(),
        forall|r: int|
            0 <= r < writes.len() ==> write_all(Map::empty(), writes)[(#[trigger] writes[r]).0]
                == writes[r].1,
    decreases writes.len(),
{
    let after = write_all(Map::empty(), writes);
    if writes.len() > 0 {
        let head = writes.drop_last();
        let last = writes.len() - 1;
        assert(keys_of(head) =~= keys_of(writes).drop_last());
        lemma_write_all_distinct(head);
        assert forall|r: int| 0 <= r < writes.len() implies after[(#[trigger] writes[r]).0]
            == writes[r].1 by {
            if r < last {
                assert(keys_of(writes)[r] != keys_of(writes)[last]);
                assert(head[r] == writes[r]);
            }
        }
        assert forall|key: Seq<u8>|
            after.dom().contains(key) <==> keys_of(writes).to_set().contains(key) by {
            if keys_of(writes).contains(key) {
                let r = choose|r: int| 0 <= r < keys_of(writes).len() && keys_of(writes)[r] == key;
                if r < last {
                    assert(keys_of(head)[r] == key);
                }
            }
            if key == writes[last].0 {
                assert(keys_of(writes)[last] == key);
            }
        }
    }
}

/// `mapped` is the sorted content of a store that was empty before a map
/// step over `source` filled it.
pub open spec fn is_mapped_store(
    source: Seq<(Seq<u8>, Seq<u8>)>,
    mapped: Seq<(Seq<u8>, Seq<u8>)>,
) -> bool {
    &&& ascending(keys_of(source))
    &&& first_value_error(source) is None
    &&& ascending(keys_of(mapped))
    &&& contents(mapped) == write_all(Map::empty(), mapped_entries(source))
}

proof fn lemma_mapped_writes_distinct(source: Seq<(Seq<u8>, Seq<u8>)>)
    requires
        ascending(keys_of(source)),
        first_value_error(source) is None,
    ensures
        keys_of(mapped_entries(source)).no_duplicates(),
        forall|i: int| 0 <= i < source.len() ==> !(#[trigger] source[i]).1.contains(SEPARATOR),
{
    let writes = mapped_entries(source);
    assert forall|i: int| 0 <= i < source.len() implies !(#[trigger] source[i]).1.contains(
        SEPARATOR,
    ) by {
        lemma_values_checked(source, i);
    }
    assert forall|a: int, b: int|
        0 <= a < keys_of(writes).len() && 0 <= b < keys_of(writes).len() && a
            != b implies keys_of(writes)[a] != keys_of(writes)[b] by {
        if keys_of(writes)[a] == keys_of(writes)[b] {
            lemma_mapped_key_injective(source[a].0, source[a].1, source[b].0, source[b].1);
            lemma_lex_irreflexive(source[a].0);
            if a < b {
                assert(lex_lt(keys_of(source)[a], keys_of(source)[b]));
            }
        }
    }
}

/// Every entry of the mapped store was made from an entry of the source.
pub proof fn lemma_origin(
    source: Seq<(Seq<u8>, Seq<u8>)>,
    mapped: Seq<(Seq<u8>, Seq<u8>)>,
    j: int,
) -> (i: int)
    requires
        is_mapped_store(source, mapped),
        0 <= j < mapped.len(),
    ensures
        0 <= i < source.len(),
        mapped[j] == mapped_entry(source[i]),
        !source[i].1.contains(SEPARATOR),
        groups_of(mapped)[j] == source[i].1,
{
    let writes = mapped_entries(source);
    lemma_mapped_writes_distinct(source);
    lemma_write_all_distinct(writes);
    lemma_lookup_at(mapped, j);
    let key = mapped[j].0;
    assert(contents(mapped).dom().contains(key));
    let i = choose|i: int| 0 <= i < keys_of(writes).len() && keys_of(writes)[i] == key;
    lemma_mapped_group(source[i].0, source[i].1);
    i
}

/// Every entry of the source has its mapped entry in the mapped store.
pub proof fn lemma_image(
    source: Seq<(Seq<u8>, Seq<u8>)>,
    mapped: Seq<(Seq<u8>, Seq<u8>)>,
    i: int,
) -> (j: int)
    requires
        is_mapped_store(source, mapped),
        0 <= i < source.len(),
    ensures
        0 <= j < mapped.len(),
        mapped[j] == mapped_entry(source[i]),
        !source[i].1.contains(SEPARATOR),
        groups_of(mapped)[j] == source[i].1,
{
    let writes = mapped_entries(source);
    lemma_mapped_writes_distinct(source);
    lemma_write_all_distinct(writes);
    let key = writes[i].0;
    assert(keys_of(writes)[i] == key);
    let j = index_of_key(mapped, key);
    lemma_mapped_group(source[i].0, source[i].1);
    j
}

/// The mapped store holds its groups one after the other.
pub proof fn lemma_mapped_groups_in_order(
    source: Seq<(Seq<u8>, Seq<u8>)>,
    mapped: Seq<(Seq<u8>, Seq<u8>)>,
)
    requires
        is_mapped_store(source, mapped),
    ensures
        groups_in_order(groups_of(mapped)),
        forall|j: int, l: int|
            0 <= j < l < mapped.len() && groups_of(mapped)[j] == groups_of(mapped)[l] ==> lex_lt(
                values_of(mapped)[j],
                values_of(mapped)[l],
            ),
{
    let groups = groups_of(mapped);
    assert forall|j: int, l: int| 0 <= j < l < groups.len() implies groups[j] == groups[l]
        || group_before(groups[j], groups[l]) by {
        let a = lemma_origin(source, mapped, j);
        let b = lemma_origin(source, mapped, l);
        assert(lex_lt(keys_of(mapped)[j], keys_of(mapped)[l]));
        lemma_mapped_key_order(source[a].0, source[a].1, source[b].0, source[b].1);
    }
    assert forall|j: int, l: int|
        0 <= j < l < mapped.len() && groups_of(mapped)[j] == groups_of(mapped)[l] implies lex_lt(
        values_of(mapped)[j],
        values_of(mapped)[l],
    ) by {
        let a = lemma_origin(source, mapped, j);
        let b = lemma_origin(source, mapped, l);
        assert(lex_lt(keys_of(mapped)[j], keys_of(mapped)[l]));
        lemma_mapped_key_order(source[a].0, source[a].1, source[b].0, source[b].1);
    }
}

/// Map and then reduce: the reduce step emits one group for each distinct
/// value of the source, under that value, and the value of the group joins
/// the keys of the source entries that held the value, in key order.
pub proof fn lemma_map_reduce_round_trip(
    source: Seq<(Seq<u8>, Seq<u8>)>,
    mapped: Seq<(Seq<u8>, Seq<u8>)>,
)
    requires
        is_mapped_store(source, mapped),
    ensures
        mapped.len() == source.len(),
        reduced(mapped).len() == values_of(source).to_set().len(),
        write_all(Map::empty(), reduced(mapped)).dom() == values_of(source).to_set(),
        forall|value: Seq<u8>|
            values_of(source).contains(value) ==> write_all(Map::empty(), reduced(mapped))[value]
                == joined(keys_with_value(source, value)),
        (forall|i: int| 0 <= i < source.len() ==> !(#[trigger] source[i]).0.contains(DELIMITER))
            ==> forall|value: Seq<u8>|
            values_of(source).contains(value) ==> pieces(
                write_all(Map::empty(), reduced(mapped))[value],
            ) == keys_with_value(source, value),
{
    let emitted = reduced(mapped);
    let output = write_all(Map::empty(), emitted);
    let writes = mapped_entries(source);
    let groups = groups_of(mapped);
    lemma_mapped_groups_in_order(source, mapped);
    lemma_reduced_groups(mapped);
    // the mapped store holds one entry for each source entry
    lemma_mapped_writes_distinct(source);
    lemma_write_all_distinct(writes);
    lemma_ascending_unique(keys_of(mapped));
    assert(keys_of(mapped).to_set() =~= keys_of(writes).to_set()) by {
        assert forall|key: Seq<u8>| keys_of(mapped).to_set().contains(key) <==> keys_of(
            writes,
        ).to_set().contains(key) by {
            if keys_of(writes).contains(key) {
                let i = choose|i: int| 0 <= i < keys_of(writes).len() && keys_of(writes)[i] == key;
                let j = lemma_image(source, mapped, i);
                assert(keys_of(mapped)[j] == key);
            }
        }
    }
    keys_of(mapped).unique_seq_to_set();
    keys_of(writes).unique_seq_to_set();
    // the emitted groups are the distinct values
    assert(keys_of(emitted).no_duplicates()) by {
        assert forall|r: int, s: int|
            0 <= r < keys_of(emitted).len() && 0 <= s < keys_of(emitted).len() && r
                != s implies keys_of(emitted)[r] != keys_of(emitted)[s] by {
            if r < s {
                assert(group_before(emitted[r].0, emitted[s].0));
            } else {
                assert(group_before(emitted[s].0, emitted[r].0));
            }
        }
    }
    lemma_write_all_distinct(emitted);
    keys_of(emitted).unique_seq_to_set();
    assert(keys_of(emitted).to_set() =~= values_of(source).to_set()) by {
        assert forall|value: Seq<u8>| keys_of(emitted).to_set().contains(value) <==> values_of(
            source,
        ).to_set().contains(value) by {
            if keys_of(emitted).contains(value) {
                let j = choose|j: int| 0 <= j < groups.len() && groups[j] == value;
                let i = lemma_origin(source, mapped, j);
                assert(values_of(source)[i] == value);
            }
            if values_of(source).contains(value) {
                let i = choose|i: int|
                    0 <= i < values_of(source).len() && values_of(source)[i] == value;
                lemma_image(source, mapped, i);
            }
        }
    }
    // each group joins the keys that held its value
    assert forall|value: Seq<u8>| values_of(source).contains(value) implies output[value]
        == joined(keys_with_value(source, value)) by {
        assert(keys_of(emitted).to_set().contains(value));
        let members = select(values_of(mapped), groups, value);
        let holders = keys_with_value(source, value);
        lemma_select_ascending(values_of(mapped), groups, value);
        assert forall|a: int, b: int|
            0 <= a < b < source.len() && values_of(source)[a] == value && values_of(source)[b]
                == value implies lex_lt(keys_of(source)[a], keys_of(source)[b]) by {}
        lemma_select_ascending(keys_of(source), values_of(source), value);
        lemma_select_items(values_of(mapped), groups, value);
        lemma_select_items(keys_of(source), values_of(source), value);
        assert forall|key: Seq<u8>| members.contains(key) <==> holders.contains(key) by {
            if carries(values_of(mapped), groups, value, key) {
                let j = carrier(values_of(mapped), groups, value, key);
                let i = lemma_origin(source, mapped, j);
                assert(keys_of(source)[i] == key && values_of(source)[i] == value);
            }
            if carries(keys_of(source), values_of(source), value, key) {
                let i = carrier(keys_of(source), values_of(source), value, key);
                lemma_image(source, mapped, i);
            }
        }
        lemma_ascending_lists_equal(members, holders);
    }
    if forall|i: int| 0 <= i < source.len() ==> !(#[trigger] source[i]).0.contains(DELIMITER) {
        assert forall|value: Seq<u8>| values_of(source).contains(value) implies pieces(
            output[value],
        ) == keys_with_value(source, value) by {
            let holders = keys_with_value(source, value);
            lemma_select_items(keys_of(source), values_of(source), value);
            let i = choose|i: int|
                0 <= i < values_of(source).len() && values_of(source)[i] == value;
            assert(carries(keys_of(source), values_of(source), value, source[i].0));
            assert forall|k: int| 0 <= k < holders.len() implies !(#[trigger] holders[k]).contains(
                DELIMITER,
            ) by {
                assert(carries(keys_of(source), values_of(source), value, holders[k]));
            }
            lemma_pieces_of_joined(holders);
        }
    }
}

/// A store that holds nothing has no contents.
pub proof fn lemma_empty_contents()
    ensures
        contents(Seq::empty()) == Map::<Seq<u8>, Seq<u8>>::empty(),
{
}

/// The reduce step finds no fault with the keys of a mapped store, as long
/// as every value of the source is at least as long as the partition width.
pub proof fn lemma_mapped_keys_well_formed(
    source: Seq<(Seq<u8>, Seq<u8>)>,
    mapped: Seq<(Seq<u8>, Seq<u8>)>,
    width: nat,
)
    requires
        is_mapped_store(source, mapped),
        values_reach(source, width),
    ensures
        first_key_error(mapped, width) is None,
{
    assert forall|j: int| 0 <= j < mapped.len() implies key_error(
        (#[trigger] mapped[j]).0,
        width,
    ) is None by {
        let i = lemma_origin(source, mapped, j);
        lemma_mapped_group(source[i].0, source[i].1);
    }
    lemma_no_key_error(mapped, width);
}

/// What a round trip that ran to its end has made of the source: it has
/// read every entry, and the output holds one group for each distinct value
/// of the source, under that value, joining the keys that held the value in
/// key order.
pub open spec fn is_grouping_of(
    output: Seq<(Seq<u8>, Seq<u8>)>,
    stats: JobStats,
    source: Seq<(Seq<u8>, Seq<u8>)>,
) -> bool {
    &&& stats.entries_processed == source.len()
    &&& stats.groups_emitted == values_of(source).to_set().len()
    &&& contents(output).dom() == values_of(source).to_set()
    &&& forall|value: Seq<u8>|
        values_of(source).contains(value) ==> contents(output)[value] == joined(
            keys_with_value(source, value),
        )
}

/// Every value is at least `width` bytes long.
pub open spec fn values_reach(source: Seq<(Seq<u8>, Seq<u8>)>, width: nat) -> bool {
    forall|i: int| 0 <= i < source.len() ==> (#[trigger] source[i]).1.len() >= width
}

/// Why a round trip does not run to its end, if it does not: the map step
/// does not run; or a value is shorter than the partition width, so that
/// the reduce step finds its grouping key too short.
pub open spec fn round_trip_error(source: Seq<(Seq<u8>, Seq<u8>)>, width: nat) -> Option<
    JobError,
> {
    match map_error(source, width) {
        Some(e) => Some(e),
        None => if values_reach(source, width) {
            None
        } else {
            Some(JobError::GroupKeyTooShort)
        },
    }
}

/// The reduce step finds exactly one fault with a mapped store, and only
/// where a value of the source is shorter than the partition width: a
/// grouping key that is too short. Every mapped key has its separator.
pub proof fn lemma_mapped_key_errors(
    source: Seq<(Seq<u8>, Seq<u8>)>,
    mapped: Seq<(Seq<u8>, Seq<u8>)>,
    width: nat,
)
    requires
        is_mapped_store(source, mapped),
    ensures
        first_key_error(mapped, width) == if values_reach(source, width) {
            None
        } else {
            Some(JobError::GroupKeyTooShort)
        },
{
    if values_reach(source, width) {
        lemma_mapped_keys_well_formed(source, mapped, width);
    } else {
        let i = choose|i: int| 0 <= i < source.len() && (#[trigger] source[i]).1.len() < width;
        let j = lemma_image(source, mapped, i);
        lemma_mapped_group(source[i].0, source[i].1);
        assert(key_error(mapped[j].0, width) == Some(JobError::GroupKeyTooShort));
        if first_key_error(mapped, width) is None {
            lemma_keys_checked(mapped, width, j);
        }
        let at = lemma_first_key_error_found(mapped, width);
        let from = lemma_origin(source, mapped, at);
        lemma_mapped_group(source[from].0, source[from].1);
    }
}

/// The mapped store partition by partition: over the consecutive partitions
/// of a width, and a source whose values are at least that long, the
/// entries of the partitions add up to the entries of the source, and the
/// groups of the partitions to its distinct values.
pub proof fn lemma_mapped_partition_sums(
    source: Seq<(Seq<u8>, Seq<u8>)>,
    mapped: Seq<(Seq<u8>, Seq<u8>)>,
    parts: Seq<Partition>,
    width: nat,
)
    requires
        is_mapped_store(source, mapped),
        values_reach(source, width),
        is_partitioning(parts, hex_alphabet(), width, PartitionMode::Consecutive),
    ensures
        total_within(mapped, parts) == source.len(),
        partitioned_groups(mapped, parts) == values_of(source).to_set().len(),
{
    lemma_map_reduce_round_trip(source, mapped);
    lemma_partition_counts_add_up(mapped, parts);
    lemma_mapped_keys_well_formed(source, mapped, width);
    lemma_groups_are_not_split(mapped, parts, hex_alphabet(), width);
}

proof fn lemma_sums_agree(
    entries: Seq<(Seq<u8>, Seq<u8>)>,
    consecutive: Seq<Partition>,
    independent: Seq<Partition>,
    width: nat,
    m: int,
)
    requires
        is_partitioning(consecutive, hex_alphabet(), width, PartitionMode::Consecutive),
        is_partitioning(independent, hex_alphabet(), width, PartitionMode::IndependentPrefix),
        all_hex_heads(entries, width),
        0 <= m <= independent.len(),
    ensures
        total_within(entries, independent.take(m)) == total_within(entries, consecutive.take(m)),
        partitioned_groups(entries, independent.take(m)) == partitioned_groups(
            entries,
            consecutive.take(m),
        ),
    decreases m,
{
    if m > 0 {
        lemma_sums_agree(entries, consecutive, independent, width, m - 1);
        lemma_modes_agree(entries, consecutive, independent, width, m - 1);
        assert(independent.take(m).drop_last() =~= independent.take(m - 1));
        assert(consecutive.take(m).drop_last() =~= consecutive.take(m - 1));
        assert(independent.take(m).last() == independent[m - 1]);
        assert(consecutive.take(m).last() == consecutive[m - 1]);
    }
}

/// The mapped store prefix by prefix: where every value of the source
/// starts with `width` hexadecimal digits, every mapped key starts with
/// exactly one prefix of that width, the keys of one group with the same
/// one; the entries found under the prefixes add up to the entries of the
/// source, and the groups found under them to its distinct values.
pub proof fn lemma_mapped_prefix_sums(
    source: Seq<(Seq<u8>, Seq<u8>)>,
    mapped: Seq<(Seq<u8>, Seq<u8>)>,
    consecutive: Seq<Partition>,
    independent: Seq<Partition>,
    width: nat,
)
    requires
        is_mapped_store(source, mapped),
        forall|i: int| 0 <= i < source.len() ==> has_hex_head((#[trigger] source[i]).1, width),
        is_partitioning(consecutive, hex_alphabet(), width, PartitionMode::Consecutive),
        is_partitioning(independent, hex_alphabet(), width, PartitionMode::IndependentPrefix),
    ensures
        all_hex_heads(mapped, width),
        forall|j: int|
            0 <= j < mapped.len() ==> holders(independent, (#[trigger] mapped[j]).0) == 1,
        total_within(mapped, independent) == source.len(),
        partitioned_groups(mapped, independent) == values_of(source).to_set().len(),
{
    assert forall|j: int| 0 <= j < mapped.len() implies has_hex_head(
        (#[trigger] mapped[j]).0,
        width,
    ) && holders(independent, mapped[j].0) == 1 by {
        let i = lemma_origin(source, mapped, j);
        let (key, value) = (mapped[j].0, source[i].1);
        assert forall|k: int| 0 <= k < width implies is_hex_digit(#[trigger] key[k]) by {
            assert(key[k] == value[k]);
        }
        lemma_hex_head_holder(independent, width, key);
    }
    lemma_mapped_partition_sums(source, mapped, consecutive, width);
    lemma_sums_agree(mapped, consecutive, independent, width, independent.len() as int);
    assert(independent.take(independent.len() as int) =~= independent);
    assert(consecutive.take(consecutive.len() as int) =~= consecutive);
}

/// Runs the map step from `source` into a store of its own, and the reduce
/// step from that store into another one, which it returns with the report
/// of the reduce step.
///
/// The round trip ends with the error of the map step where that step does
/// not run, and with `GroupKeyTooShort` where a value is shorter than the
/// width.
pub fn group_by_value(source: &MemStore, width: u32) -> (result: Result<
    (MemStore, JobStats),
    JobError,
>)
    ensures
        match round_trip_error(source@, width as nat) {
            Some(e) => result is Err && result->Err_0 == e,
            None => result is Ok && is_grouping_of(result->Ok_0.0@, result->Ok_0.1, source@),
        },
{
    let mut mapped = MemStore::new();
    match map_store(source, &mut mapped, width) {
        Err(e) => {
            return Err(e);
        },
        Ok(_) => {},
    }
    proof {
        use_type_invariant(source);
        use_type_invariant(&mapped);
        lemma_empty_contents();
        assert(is_mapped_store(source@, mapped@));
        lemma_map_reduce_round_trip(source@, mapped@);
        lemma_mapped_key_errors(source@, mapped@, width as nat);
    }
    let mut output = MemStore::new();
    match reduce_store(&mapped, &mut output, width) {
        Err(e) => Err(e),
        Ok(stats) => Ok((output, stats)),
    }
}

} // verus!
