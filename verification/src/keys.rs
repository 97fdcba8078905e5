//! The total order on byte-string keys that every ordered store iterates in.

use vstd::prelude::*;

verus! {

/// `a` and `b` hold the same bytes at every position before `i`.
pub open spec fn agree_before(a: Seq<u8>, b: Seq<u8>, i: int) -> bool {
    &&& 0 <= i <= a.len()
    &&& i <= b.len()
    &&& forall|j: int| 0 <= j < i ==> a[j] == b[j]
}

/// `i` is the position that decides `a < b`: the two keys agree before it,
/// and there `a` either ends while `b` goes on, or holds the smaller byte.
pub open spec fn decides_less_at(a: Seq<u8>, b: Seq<u8>, i: int) -> bool {
    &&& agree_before(a, b, i)
    &&& i < b.len()
    &&& (i == a.len() || a[i] < b[i])
}

/// Strict lexicographic order on byte strings.
pub open spec fn lex_lt(a: Seq<u8>, b: Seq<u8>) -> bool {
    exists|i: int| decides_less_at(a, b, i)
}

/// Lexicographic order on byte strings.
pub open spec fn lex_le(a: Seq<u8>, b: Seq<u8>) -> bool {
    a == b || lex_lt(a, b)
}

/// The keys are strictly ascending: in store order, and without repeats.
pub open spec fn ascending(keys: Seq<Seq<u8>>) -> bool {
    forall|i: int, j: int| 0 <= i < j < keys.len() ==> lex_lt(keys[i], keys[j])
}

/// `index` is where `bound` would be inserted: the keys before it sort
/// before the bound, the keys from it on do not.
pub open spec fn splits_at(keys: Seq<Seq<u8>>, bound: Seq<u8>, index: int) -> bool {
    &&& 0 <= index <= keys.len()
    &&& forall|j: int| 0 <= j < index ==> lex_lt(#[trigger] keys[j], bound)
    &&& forall|j: int| index <= j < keys.len() ==> lex_le(bound, #[trigger] keys[j])
}

/// No key sorts before `bound`.
pub open spec fn all_at_or_after(keys: Seq<Seq<u8>>, bound: Seq<u8>) -> bool {
    forall|j: int| 0 <= j < keys.len() ==> lex_le(bound, #[trigger] keys[j])
}

/// Every key sorts before `bound`.
pub open spec fn all_before(keys: Seq<Seq<u8>>, bound: Seq<u8>) -> bool {
    forall|j: int| 0 <= j < keys.len() ==> lex_lt(#[trigger] keys[j], bound)
}

/// How one key stands to another in lexicographic order.
#[derive(Clone, Copy, Debug, PartialEq, Eq, Structural)]
pub enum KeyOrder {
    Less,
    Equal,
    Greater,
}

/// The relation between `a` and `b` as a value.
pub open spec fn key_order(a: Seq<u8>, b: Seq<u8>) -> KeyOrder {
    if a == b {
        KeyOrder::Equal
    } else if lex_lt(a, b) {
        KeyOrder::Less
    } else {
        KeyOrder::Greater
    }
}

/// No key sorts before itself.
pub proof fn lemma_lex_irreflexive(a: Seq<u8>)
    ensures
        !lex_lt(a, a),
{
}

/// Two keys never sort before each other.
pub proof fn lemma_lex_asymmetric(a: Seq<u8>, b: Seq<u8>)
    ensures
        !(lex_lt(a, b) && lex_lt(b, a)),
{
}

/// The order is transitive.
pub proof fn lemma_lex_transitive(a: Seq<u8>, b: Seq<u8>, c: Seq<u8>)
    requires
        lex_lt(a, b),
        lex_lt(b, c),
    ensures
        lex_lt(a, c),
{
    let i = choose|i: int| decides_less_at(a, b, i);
    let j = choose|j: int| decides_less_at(b, c, j);
    let m = if i <= j { i } else { j };
    assert(decides_less_at(a, c, m));
}

proof fn lemma_lex_total_from(a: Seq<u8>, b: Seq<u8>, i: int)
    requires
        agree_before(a, b, i),
    ensures
        lex_lt(a, b) || a == b || lex_lt(b, a),
    decreases a.len() - i,
{
    if i == a.len() {
        if i == b.len() {
            assert(a =~= b);
        } else {
            assert(decides_less_at(a, b, i));
        }
    } else if i == b.len() {
        assert(decides_less_at(b, a, i));
    } else if a[i] < b[i] {
        assert(decides_less_at(a, b, i));
    } else if b[i] < a[i] {
        assert(decides_less_at(b, a, i));
    } else {
        lemma_lex_total_from(a, b, i + 1);
    }
}

/// Any two keys are equal or one sorts before the other.
pub proof fn lemma_lex_total(a: Seq<u8>, b: Seq<u8>)
    ensures
        lex_lt(a, b) || a == b || lex_lt(b, a),
{
    lemma_lex_total_from(a, b, 0);
}

/// `lex_le` is the complement of the reversed strict order.
pub proof fn lemma_lex_le_iff_not_gt(a: Seq<u8>, b: Seq<u8>)
    ensures
        lex_le(a, b) <==> !lex_lt(b, a),
{
    lemma_lex_total(a, b);
}

/// Mixed transitivity: `a <= b < c` gives `a < c`.
pub proof fn lemma_lex_le_lt(a: Seq<u8>, b: Seq<u8>, c: Seq<u8>)
    requires
        lex_le(a, b),
        lex_lt(b, c),
    ensures
        lex_lt(a, c),
{
    if a != b {
        lemma_lex_transitive(a, b, c);
    }
}

/// Mixed transitivity: `a < b <= c` gives `a < c`.
pub proof fn lemma_lex_lt_le(a: Seq<u8>, b: Seq<u8>, c: Seq<u8>)
    requires
        lex_lt(a, b),
        lex_le(b, c),
    ensures
        lex_lt(a, c),
{
    if b != c {
        lemma_lex_transitive(a, b, c);
    }
}

/// A key never sorts before one of its own prefixes.
pub proof fn lemma_prefix_sorts_first(p: Seq<u8>, k: Seq<u8>)
    requires
        p.is_prefix_of(k),
    ensures
        lex_le(p, k),
{
    if p.len() == k.len() {
        assert(p =~= k);
    } else {
        assert(decides_less_at(p, k, p.len() as int));
    }
}

/// Ascending keys do not repeat.
pub proof fn lemma_ascending_unique(keys: Seq<Seq<u8>>)
    requires
        ascending(keys),
    ensures
        keys.no_duplicates(),
{
    assert forall|i: int, j: int|
        0 <= i < keys.len() && 0 <= j < keys.len() && i != j implies keys[i] != keys[j] by {
        lemma_lex_irreflexive(keys[i]);
    }
}

/// A bound splits a list of keys at one index only.
pub proof fn lemma_split_unique(keys: Seq<Seq<u8>>, bound: Seq<u8>, i: int, j: int)
    requires
        splits_at(keys, bound, i),
        splits_at(keys, bound, j),
    ensures
        i == j,
{
    if i < j {
        lemma_lex_le_iff_not_gt(bound, keys[i]);
    } else if j < i {
        lemma_lex_le_iff_not_gt(bound, keys[j]);
    }
}

/// In an ascending list every bound has its split index.
pub proof fn lemma_split_exists(keys: Seq<Seq<u8>>, bound: Seq<u8>) -> (index: int)
    requires
        ascending(keys),
    ensures
        splits_at(keys, bound, index),
    decreases keys.len(),
{
    if keys.len() == 0 {
        0
    } else {
        let head = keys.drop_last();
        let last = keys.len() - 1;
        if lex_lt(keys[last], bound) {
            assert forall|j: int| 0 <= j < keys.len() implies lex_lt(#[trigger] keys[j], bound) by {
                if j < last {
                    lemma_lex_transitive(keys[j], keys[last], bound);
                }
            }
            keys.len() as int
        } else {
            let index = lemma_split_exists(head, bound);
            lemma_lex_le_iff_not_gt(bound, keys[last]);
            assert forall|j: int| 0 <= j < index implies lex_lt(#[trigger] keys[j], bound) by {
                assert(head[j] == keys[j]);
            }
            assert forall|j: int| index <= j < keys.len() implies lex_le(
                bound,
                #[trigger] keys[j],
            ) by {
                if j < last {
                    assert(head[j] == keys[j]);
                }
            }
            index
        }
    }
}

/// Keys that start with `p` sort together: a key between `p` and a key
/// that starts with `p` starts with `p` too.
pub proof fn lemma_prefix_run(p: Seq<u8>, x: Seq<u8>, y: Seq<u8>)
    requires
        lex_le(p, x),
        lex_le(x, y),
        p.is_prefix_of(y),
    ensures
        p.is_prefix_of(x),
{
}

/// How a key stands to a bound is decided within the length of the bound:
/// two keys that are at least as long as the bound and agree on that many
/// bytes stand on the same side of it.
pub proof fn lemma_same_head_same_side(bound: Seq<u8>, x: Seq<u8>, y: Seq<u8>)
    requires
        bound.len() <= x.len(),
        bound.len() <= y.len(),
        x.take(bound.len() as int) == y.take(bound.len() as int),
    ensures
        lex_lt(x, bound) == lex_lt(y, bound),
{
    lemma_head_decides(bound, x, y);
    lemma_head_decides(bound, y, x);
}

proof fn lemma_head_decides(bound: Seq<u8>, x: Seq<u8>, y: Seq<u8>)
    requires
        bound.len() <= x.len(),
        bound.len() <= y.len(),
        x.take(bound.len() as int) == y.take(bound.len() as int),
    ensures
        lex_lt(x, bound) ==> lex_lt(y, bound),
{
    if lex_lt(x, bound) {
        let w = bound.len() as int;
        let i = choose|i: int| decides_less_at(x, bound, i);
        assert forall|j: int| 0 <= j <= i implies x[j] == y[j] by {
            assert(x.take(w)[j] == y.take(w)[j]);
        }
        assert(decides_less_at(y, bound, i));
    }
}

/// Compares two keys byte by byte.
pub fn compare_keys(a: &[u8], b: &[u8]) -> (order: KeyOrder)
    ensures
        order == key_order(a@, b@),
{
    let mut i: usize = 0;
    while i < a.len() && i < b.len()
        invariant
            agree_before(a@, b@, i as int),
        decreases a.len() - i,
    {
        if a[i] < b[i] {
            proof {
                assert(decides_less_at(a@, b@, i as int));
            }
            return KeyOrder::Less;
        }
        if a[i] > b[i] {
            return KeyOrder::Greater;
        }
        i += 1;
    }
    if i < b.len() {
        proof {
            assert(decides_less_at(a@, b@, i as int));
        }
        KeyOrder::Less
    } else if i < a.len() {
        KeyOrder::Greater
    } else {
        proof {
            assert(a@ =~= b@);
        }
        KeyOrder::Equal
    }
}

/// Whether `key` starts with `prefix`. A key shorter than the prefix does not.
pub fn has_prefix(key: &[u8], prefix: &[u8]) -> (found: bool)
    ensures
        found == prefix@.is_prefix_of(key@),
{
    if key.len() < prefix.len() {
        return false;
    }
    let mut i: usize = 0;
    while i < prefix.len()
        invariant
            prefix@.len() <= key@.len(),
            0 <= i <= prefix@.len(),
            forall|j: int| 0 <= j < i ==> key@[j] == prefix@[j],
        decreases prefix.len() - i,
    {
        if key[i] != prefix[i] {
            return false;
        }
        i += 1;
    }
    true
}

/// Whether two keys hold the same bytes.
pub fn keys_equal(a: &[u8], b: &[u8]) -> (same: bool)
    ensures
        same == (a@ == b@),
{
    match compare_keys(a, b) {
        KeyOrder::Equal => true,
        KeyOrder::Less => {
            false
        },
        KeyOrder::Greater => false,
    }
}

} // verus!
