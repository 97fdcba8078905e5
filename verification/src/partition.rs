//! Decomposition of a byte-keyed space into fixed-width prefix partitions.

use crate::error::JobError;
use crate::hex_text::{hex_alphabet, hex_symbols};
use crate::keys::{
    ascending, compare_keys, decides_less_at, has_prefix, lemma_lex_asymmetric,
    lemma_lex_le_iff_not_gt, lemma_lex_lt_le, lemma_lex_total, lemma_lex_transitive,
    lemma_prefix_sorts_first, lemma_same_head_same_side, lex_le, lex_lt, KeyOrder,
};
use vstd::arithmetic::div_mod::{
    lemma_div_is_ordered, lemma_fundamental_div_mod, lemma_fundamental_div_mod_converse,
    lemma_multiply_divide_lt,
};
use vstd::arithmetic::power::{
    lemma0_pow, lemma1_pow, lemma_pow0, lemma_pow1, lemma_pow_increases, pow,
};
use vstd::prelude::*;

verus! {

/// The largest number of partitions the partitioner creates: what a counter
/// of sixty-four bits can count.
pub const MAX_PARTITIONS: u64 = u64::MAX;

/// How a list of prefixes is turned into scan ranges.
#[derive(Clone, Copy, Debug, PartialEq, Eq, Structural)]
pub enum PartitionMode {
    /// Each prefix is an exact-match filter: a partition holds the keys that
    /// start with it, and keys that start with no prefix belong nowhere.
    IndependentPrefix,
    /// Each prefix is also the upper bound of the partition before it. The
    /// first partition reaches back to the start of the key space and the
    /// last one has no upper bound: every key belongs to exactly one
    /// partition.
    Consecutive,
}

/// Where a partition stops.
#[derive(Clone, Debug, PartialEq, Eq)]
pub enum Extent {
    /// At the first key that does not start with the prefix.
    Prefix,
    /// At the first key that is not below the given bound.
    Until(Vec<u8>),
    /// At the first key that is not below the given bound, as `Until`; but
    /// the partition starts at the first key of the store, not at its
    /// prefix. This is the first partition of a consecutive list.
    Before(Vec<u8>),
    /// At the end of the store.
    ToEnd,
}

/// One scan range, identified by its lower bound prefix.
#[derive(Clone, Debug, PartialEq, Eq)]
pub struct Partition {
    pub prefix: Vec<u8>,
    pub extent: Extent,
}

impl Partition {
    /// The lower bound prefix: the string that identifies the partition.
    pub open spec fn lower(&self) -> Seq<u8> {
        self.prefix@
    }

    /// The key at which a scan of the partition starts, where that is not
    /// the first key of the store.
    pub open spec fn floor(&self) -> Option<Seq<u8>> {
        match self.extent {
            Extent::Before(_) => None,
            _ => Some(self.prefix@),
        }
    }

    /// The exclusive upper bound, where the partition has one.
    pub open spec fn upper(&self) -> Option<Seq<u8>> {
        match self.extent {
            Extent::Until(bound) => Some(bound@),
            Extent::Before(bound) => Some(bound@),
            _ => None,
        }
    }

    /// Whether `key` belongs to this partition.
    pub open spec fn contains(&self, key: Seq<u8>) -> bool {
        match self.extent {
            Extent::Prefix => self.prefix@.is_prefix_of(key),
            Extent::Until(bound) => lex_le(self.prefix@, key) && lex_lt(key, bound@),
            Extent::Before(bound) => lex_lt(key, bound@),
            Extent::ToEnd => lex_le(self.prefix@, key),
        }
    }

    /// The key to seek to before a scan of the partition, or `None` where
    /// the scan starts at the first key of the store.
    pub fn seek_key(&self) -> (key: Option<&Vec<u8>>)
        ensures
            match key {
                Some(start) => self.floor() == Some(start@),
                None => self.floor() is None,
            },
    {
        match &self.extent {
            Extent::Before(_) => None,
            _ => Some(&self.prefix),
        }
    }

    /// Decides whether a scan of this partition consumes `key` or stops at it.
    pub fn accepts(&self, key: &[u8]) -> (inside: bool)
        ensures
            inside == self.contains(key@),
    {
        match &self.extent {
            Extent::Prefix => has_prefix(key, self.prefix.as_slice()),
            Extent::Until(bound) => {
                match compare_keys(self.prefix.as_slice(), key) {
                    KeyOrder::Greater => false,
                    _ => match compare_keys(key, bound.as_slice()) {
                        KeyOrder::Less => true,
                        _ => false,
                    },
                }
            },
            Extent::Before(bound) => {
                proof {
                    lemma_lex_asymmetric(key@, bound@);
                }
                match compare_keys(key, bound.as_slice()) {
                    KeyOrder::Less => true,
                    _ => false,
                }
            },
            Extent::ToEnd => {
                match compare_keys(self.prefix.as_slice(), key) {
                    KeyOrder::Greater => false,
                    _ => true,
                }
            },
        }
    }
}

/// An alphabet the partitioner accepts: at least two symbols, strictly
/// ascending, so that numeric order of prefixes is their byte order.
pub open spec fn valid_alphabet(alphabet: Seq<u8>) -> bool {
    &&& alphabet.len() >= 2
    &&& forall|i: int, j: int| 0 <= i < j < alphabet.len() ==> alphabet[i] < alphabet[j]
}

/// The `index`-th string of length `width` over `alphabet`: the numeral of
/// `index` in base `alphabet.len()`, most significant symbol first.
pub open spec fn prefix_at(alphabet: Seq<u8>, width: nat, index: int) -> Seq<u8>
    decreases width,
{
    if width == 0 {
        Seq::empty()
    } else {
        prefix_at(alphabet, (width - 1) as nat, index / (alphabet.len() as int)).push(
            alphabet[index % (alphabet.len() as int)],
        )
    }
}

/// How many strings of length `width` the alphabet spells.
pub open spec fn prefix_count(alphabet: Seq<u8>, width: nat) -> int {
    pow(alphabet.len() as int, width)
}

/// Whether `(alphabet, width)` is a request the partitioner serves: the
/// width is not zero, and the number of prefixes is not beyond
/// [`MAX_PARTITIONS`].
pub open spec fn valid_width(alphabet: Seq<u8>, width: nat) -> bool {
    width >= 1 && prefix_count(alphabet, width) <= MAX_PARTITIONS
}

/// The lower bounds of a list of partitions, in list order.
pub open spec fn lower_bounds(parts: Seq<Partition>) -> Seq<Seq<u8>> {
    Seq::new(parts.len(), |i: int| parts[i].lower())
}

/// The list is a consecutive-mode partitioning: ascending lower bounds, the
/// first partition reaching back to the start of the key space, each
/// partition ending where the next begins, the last one unbounded.
pub open spec fn is_consecutive(parts: Seq<Partition>) -> bool {
    &&& parts.len() >= 2
    &&& ascending(lower_bounds(parts))
    &&& parts[0].extent is Before
    &&& forall|i: int| 0 < i < parts.len() - 1 ==> (#[trigger] parts[i]).extent is Until
    &&& forall|i: int|
        0 <= i < parts.len() - 1 ==> (#[trigger] parts[i]).upper() == Some(parts[i + 1].lower())
    &&& parts.last().extent is ToEnd
}

/// Some partition of the list holds `key`.
pub open spec fn has_holder(parts: Seq<Partition>, key: Seq<u8>) -> bool {
    exists|i: int| 0 <= i < parts.len() && (#[trigger] parts[i]).contains(key)
}

/// The list is an independent-prefix partitioning.
pub open spec fn is_independent(parts: Seq<Partition>) -> bool {
    forall|i: int| 0 <= i < parts.len() ==> (#[trigger] parts[i]).extent is Prefix
}

/// The list is the partitioning of `(alphabet, width)` in the given mode.
pub open spec fn is_partitioning(
    parts: Seq<Partition>,
    alphabet: Seq<u8>,
    width: nat,
    mode: PartitionMode,
) -> bool {
    &&& parts.len() == prefix_count(alphabet, width)
    &&& forall|i: int|
        0 <= i < parts.len() ==> (#[trigger] parts[i]).lower() == prefix_at(alphabet, width, i)
    &&& match mode {
        PartitionMode::IndependentPrefix => is_independent(parts),
        PartitionMode::Consecutive => is_consecutive(parts),
    }
}

/// A prefix has exactly `width` symbols, each taken from the alphabet.
pub proof fn lemma_prefix_shape(alphabet: Seq<u8>, width: nat, index: int)
    requires
        alphabet.len() >= 1,
    ensures
        prefix_at(alphabet, width, index).len() == width,
        forall|k: int|
            0 <= k < width ==> alphabet.contains(#[trigger] prefix_at(alphabet, width, index)[k]),
    decreases width,
{
    if width > 0 {
        let a = alphabet.len() as int;
        lemma_prefix_shape(alphabet, (width - 1) as nat, index / a);
    }
}

/// Prefixes sort as their indices do.
pub proof fn lemma_prefixes_ascend(alphabet: Seq<u8>, width: nat, i: int, j: int)
    requires
        valid_alphabet(alphabet),
        0 <= i < j < prefix_count(alphabet, width),
    ensures
        lex_lt(prefix_at(alphabet, width, i), prefix_at(alphabet, width, j)),
    decreases width,
{
    let a = alphabet.len() as int;
    if width == 0 {
        lemma_pow0(a);
    } else {
        let w = (width - 1) as nat;
        let (qi, qj) = (i / a, j / a);
        let (ri, rj) = (i % a, j % a);
        let (pi, pj) = (prefix_at(alphabet, w, qi), prefix_at(alphabet, w, qj));
        lemma_prefix_shape(alphabet, w, qi);
        lemma_prefix_shape(alphabet, w, qj);
        lemma_fundamental_div_mod(i, a);
        lemma_fundamental_div_mod(j, a);
        lemma_div_is_ordered(i, j, a);
        assert(pow(a, width) == a * pow(a, w)) by {
            reveal(pow);
        }
        lemma_multiply_divide_lt(j, a, pow(a, w));
        if qi < qj {
            lemma_prefixes_ascend(alphabet, w, qi, qj);
            let m = choose|m: int| decides_less_at(pi, pj, m);
            assert(decides_less_at(pi.push(alphabet[ri]), pj.push(alphabet[rj]), m));
        } else {
            assert(ri < rj) by (nonlinear_arith)
                requires
                    i == a * qi + ri,
                    j == a * qj + rj,
                    qi == qj,
                    i < j,
            ;
            assert(decides_less_at(pi.push(alphabet[ri]), pj.push(alphabet[rj]), w as int));
        }
    }
}

/// Every string of length `width` over the alphabet is one of the prefixes.
pub proof fn lemma_every_string_listed(alphabet: Seq<u8>, width: nat, text: Seq<u8>) -> (index:
    int)
    requires
        alphabet.len() >= 1,
        text.len() == width,
        forall|k: int| 0 <= k < width ==> alphabet.contains(#[trigger] text[k]),
    ensures
        0 <= index < prefix_count(alphabet, width),
        prefix_at(alphabet, width, index) == text,
    decreases width,
{
    let a = alphabet.len() as int;
    if width == 0 {
        lemma_pow0(a);
        0
    } else {
        let w = (width - 1) as nat;
        let head = text.drop_last();
        let q = lemma_every_string_listed(alphabet, w, head);
        let r = choose|r: int| 0 <= r < alphabet.len() && alphabet[r] == text[width - 1];
        let index = q * a + r;
        lemma_fundamental_div_mod_converse(index, a, q, r);
        assert(pow(a, width) == a * pow(a, w)) by {
            reveal(pow);
        }
        assert(0 <= index < a * pow(a, w)) by (nonlinear_arith)
            requires
                index == q * a + r,
                0 <= r < a,
                0 <= q < pow(a, w),
        ;
        index
    }
}

/// Each string of one width splits into its children at the next width:
/// the strings that extend it by one symbol follow one another in the list
/// of the next width, in the order of the alphabet.
pub proof fn lemma_prefix_children(alphabet: Seq<u8>, width: nat, index: int, symbol: int)
    requires
        0 <= index,
        0 <= symbol < alphabet.len(),
    ensures
        prefix_at(alphabet, width + 1, alphabet.len() * index + symbol) == prefix_at(
            alphabet,
            width,
            index,
        ).push(alphabet[symbol]),
        prefix_count(alphabet, width + 1) == alphabet.len() * prefix_count(alphabet, width),
{
    let a = alphabet.len() as int;
    assert(a * index + symbol == index * a + symbol) by (nonlinear_arith);
    lemma_fundamental_div_mod_converse(a * index + symbol, a, index, symbol);
    assert(pow(a, width + 1) == a * pow(a, width)) by {
        reveal(pow);
    }
}

/// The first string of a width repeats the first symbol of the alphabet,
/// and the last string repeats the last symbol.
pub proof fn lemma_first_and_last_prefix(alphabet: Seq<u8>, width: nat)
    requires
        alphabet.len() >= 1,
    ensures
        prefix_at(alphabet, width, 0) == Seq::new(width, |k: int| alphabet[0]),
        prefix_at(alphabet, width, prefix_count(alphabet, width) - 1) == Seq::new(
            width,
            |k: int| alphabet.last(),
        ),
    decreases width,
{
    let a = alphabet.len() as int;
    if width == 0 {
        assert(prefix_at(alphabet, width, 0) =~= Seq::new(width, |k: int| alphabet[0]));
        assert(prefix_at(alphabet, width, prefix_count(alphabet, width) - 1) =~= Seq::new(
            width,
            |k: int| alphabet.last(),
        ));
    } else {
        let w = (width - 1) as nat;
        lemma_first_and_last_prefix(alphabet, w);
        lemma_fundamental_div_mod_converse(0, a, 0, 0);
        assert(prefix_at(alphabet, width, 0) =~= Seq::new(width, |k: int| alphabet[0]));
        assert(pow(a, width) == a * pow(a, w)) by {
            reveal(pow);
        }
        let (top, below) = (pow(a, width) - 1, pow(a, w) - 1);
        assert(top == below * a + (a - 1)) by (nonlinear_arith)
            requires
                top == a * (below + 1) - 1,
        ;
        lemma_fundamental_div_mod_converse(top, a, below, a - 1);
        assert(prefix_at(alphabet, width, top) =~= Seq::new(width, |k: int| alphabet.last()));
    }
}

/// In an ascending list of bounds, a key at or after the first bound lies at
/// or after exactly one bound and before the next.
pub proof fn lemma_bounds_locate(bounds: Seq<Seq<u8>>, key: Seq<u8>) -> (i: int)
    requires
        bounds.len() >= 1,
        ascending(bounds),
        lex_le(bounds[0], key),
    ensures
        0 <= i < bounds.len(),
        lex_le(bounds[i], key),
        i + 1 < bounds.len() ==> lex_lt(key, bounds[i + 1]),
    decreases bounds.len(),
{
    let last = bounds.len() - 1;
    if lex_le(bounds[last], key) {
        last
    } else {
        lemma_lex_total(bounds[last], key);
        let shorter = bounds.drop_last();
        lemma_bounds_locate(shorter, key)
    }
}

/// Consecutive partitions cover without gaps: every key belongs to some
/// partition.
pub proof fn lemma_consecutive_covers(parts: Seq<Partition>, key: Seq<u8>) -> (i: int)
    requires
        is_consecutive(parts),
    ensures
        0 <= i < parts.len(),
        parts[i].contains(key),
{
    let bounds = lower_bounds(parts);
    assert(bounds[0] == parts[0].lower() && bounds[1] == parts[1].lower());
    if lex_le(bounds[0], key) {
        let i = lemma_bounds_locate(bounds, key);
        assert(bounds[i] == parts[i].lower());
        if i + 1 < parts.len() {
            assert(bounds[i + 1] == parts[i + 1].lower());
            assert(parts[i].upper() == Some(parts[i + 1].lower()));
        }
        i
    } else {
        lemma_lex_total(bounds[0], key);
        assert(lex_lt(bounds[0], bounds[1]));
        lemma_lex_transitive(key, bounds[0], bounds[1]);
        assert(parts[0].upper() == Some(parts[1].lower()));
        0
    }
}

/// Consecutive partitions do not overlap: no key belongs to two of them.
pub proof fn lemma_consecutive_disjoint(parts: Seq<Partition>, key: Seq<u8>, i: int, j: int)
    requires
        is_consecutive(parts),
        0 <= i < parts.len(),
        0 <= j < parts.len(),
        parts[i].contains(key),
        parts[j].contains(key),
    ensures
        i == j,
{
    if i < j {
        lemma_earlier_excludes_later(parts, key, i, j);
    } else if j < i {
        lemma_earlier_excludes_later(parts, key, j, i);
    }
}

proof fn lemma_earlier_excludes_later(parts: Seq<Partition>, key: Seq<u8>, i: int, j: int)
    requires
        is_consecutive(parts),
        0 <= i < j < parts.len(),
        parts[i].contains(key),
    ensures
        !parts[j].contains(key),
{
    let bounds = lower_bounds(parts);
    assert(bounds[i + 1] == parts[i + 1].lower() && bounds[j] == parts[j].lower());
    let next = parts[i + 1].lower();
    assert(parts[i].upper() == Some(next));
    assert(lex_lt(key, next));
    if i + 1 < j {
        assert(lex_lt(bounds[i + 1], bounds[j]));
        lemma_lex_lt_le(key, next, parts[j].lower());
    }
    lemma_lex_le_iff_not_gt(parts[j].lower(), key);
    if j < parts.len() - 1 {
        assert(parts[j].extent is Until);
    }
}

/// The consecutive partitioning of an alphabet and a width covers the key
/// space: its lower bounds are all strings of that width over the alphabet,
/// each once and in ascending order; every key belongs to exactly one
/// partition, which for a key at or after the first lower bound is the one
/// between whose bounds it lies; and the last partition has no upper bound.
pub proof fn lemma_partitioning_covers(
    parts: Seq<Partition>,
    alphabet: Seq<u8>,
    width: nat,
)
    requires
        valid_alphabet(alphabet),
        is_partitioning(parts, alphabet, width, PartitionMode::Consecutive),
    ensures
        ascending(lower_bounds(parts)),
        parts.last().extent is ToEnd,
        forall|i: int| 0 <= i < parts.len() ==> (#[trigger] parts[i]).lower().len() == width,
        forall|text: Seq<u8>|
            text.len() == width && (forall|k: int|
                0 <= k < width ==> alphabet.contains(#[trigger] text[k])) ==> lower_bounds(
                parts,
            ).contains(text),
        forall|key: Seq<u8>, i: int, j: int|
            0 <= i < parts.len() && 0 <= j < parts.len() && parts[i].contains(key)
                && parts[j].contains(key) ==> i == j,
        forall|key: Seq<u8>| #[trigger] has_holder(parts, key),
        forall|key: Seq<u8>, i: int|
            0 <= i < parts.len() && lex_le(parts[0].lower(), key) ==> (#[trigger] parts[i].contains(
                key,
            ) <==> lex_le(parts[i].lower(), key) && (i + 1 < parts.len() ==> lex_lt(
                key,
                parts[i + 1].lower(),
            ))),
{
    assert forall|i: int| 0 <= i < parts.len() implies (#[trigger] parts[i]).lower().len()
        == width by {
        lemma_prefix_shape(alphabet, width, i);
    }
    assert forall|text: Seq<u8>|
        text.len() == width && (forall|k: int|
            0 <= k < width ==> alphabet.contains(#[trigger] text[k])) implies lower_bounds(
        parts,
    ).contains(text) by {
        let i = lemma_every_string_listed(alphabet, width, text);
        assert(lower_bounds(parts)[i] == text);
    }
    assert forall|key: Seq<u8>, i: int, j: int|
        0 <= i < parts.len() && 0 <= j < parts.len() && parts[i].contains(key)
            && parts[j].contains(key) implies i == j by {
        lemma_consecutive_disjoint(parts, key, i, j);
    }
    assert forall|key: Seq<u8>| #[trigger] has_holder(parts, key) by {
        let i = lemma_consecutive_covers(parts, key);
        assert(parts[i].contains(key));
    }
    assert forall|key: Seq<u8>, i: int|
        0 <= i < parts.len() && lex_le(parts[0].lower(), key) implies (#[trigger] parts[i].contains(
        key,
    ) <==> lex_le(parts[i].lower(), key) && (i + 1 < parts.len() ==> lex_lt(
        key,
        parts[i + 1].lower(),
    ))) by {
        if i + 1 < parts.len() {
            assert(parts[i].upper() == Some(parts[i + 1].lower()));
            if 0 < i {
                assert(parts[i].extent is Until);
            }
        }
    }
}

/// Independent prefixes do not overlap: a key starts with one prefix of the
/// list at most.
pub proof fn lemma_independent_disjoint(
    parts: Seq<Partition>,
    alphabet: Seq<u8>,
    width: nat,
    key: Seq<u8>,
    i: int,
    j: int,
)
    requires
        valid_alphabet(alphabet),
        is_partitioning(parts, alphabet, width, PartitionMode::IndependentPrefix),
        0 <= i < parts.len(),
        0 <= j < parts.len(),
        parts[i].contains(key),
        parts[j].contains(key),
    ensures
        i == j,
{
    lemma_prefix_shape(alphabet, width, i);
    lemma_prefix_shape(alphabet, width, j);
    if i < j {
        lemma_prefixes_ascend(alphabet, width, i, j);
    } else if j < i {
        lemma_prefixes_ascend(alphabet, width, j, i);
    }
}

/// The two modes agree on keys that start with a prefix: a key that starts
/// with the prefix of a consecutive partition belongs to that partition.
pub proof fn lemma_prefix_within_range(
    parts: Seq<Partition>,
    alphabet: Seq<u8>,
    width: nat,
    i: int,
    key: Seq<u8>,
)
    requires
        valid_alphabet(alphabet),
        is_partitioning(parts, alphabet, width, PartitionMode::Consecutive),
        0 <= i < parts.len(),
        parts[i].lower().is_prefix_of(key),
    ensures
        parts[i].contains(key),
{
    let lower = parts[i].lower();
    lemma_prefix_sorts_first(lower, key);
    lemma_prefix_shape(alphabet, width, i);
    if i + 1 < parts.len() {
        let upper = parts[i + 1].lower();
        lemma_prefix_shape(alphabet, width, i + 1);
        assert(lower_bounds(parts)[i] == lower && lower_bounds(parts)[i + 1] == upper);
        assert(lex_lt(lower, upper));
        assert(parts[i].upper() == Some(upper));
        assert(key.take(width as int) =~= lower);
        assert(lower.take(width as int) =~= lower);
        lemma_same_head_same_side(upper, key, lower);
        if 0 < i {
            assert(parts[i].extent is Until);
        }
    }
}

/// The hexadecimal digits form a valid alphabet.
pub proof fn lemma_hex_alphabet_valid()
    ensures
        valid_alphabet(hex_alphabet()),
{
}

/// A strictly ascending alphabet has at most 256 symbols.
proof fn lemma_ascending_bytes_bounded(alphabet: Seq<u8>, k: int)
    requires
        forall|i: int, j: int| 0 <= i < j < alphabet.len() ==> alphabet[i] < alphabet[j],
        0 <= k < alphabet.len(),
    ensures
        alphabet[k] >= k,
    decreases k,
{
    if k > 0 {
        lemma_ascending_bytes_bounded(alphabet, k - 1);
    }
}

/// Why the partitioner turns a request down, if it does: the alphabet is
/// judged first, the width second.
pub open spec fn partition_request_error(alphabet: Seq<u8>, width: nat) -> Option<JobError> {
    if !valid_alphabet(alphabet) {
        Some(JobError::InvalidAlphabet)
    } else if !valid_width(alphabet, width) {
        Some(JobError::InvalidWidth)
    } else {
        None
    }
}

proof fn lemma_adjacent_ascending(alphabet: Seq<u8>, i: int, j: int)
    requires
        forall|k: int| 1 <= k < alphabet.len() ==> alphabet[k - 1] < #[trigger] alphabet[k],
        0 <= i < j < alphabet.len(),
    ensures
        alphabet[i] < alphabet[j],
    decreases j - i,
{
    if i + 1 < j {
        lemma_adjacent_ascending(alphabet, i, j - 1);
    }
}

/// Whether the partitioner accepts `alphabet`.
pub fn alphabet_is_valid(alphabet: &[u8]) -> (ok: bool)
    ensures
        ok == valid_alphabet(alphabet@),
{
    if alphabet.len() < 2 {
        return false;
    }
    let mut i: usize = 1;
    while i < alphabet.len()
        invariant
            1 <= i <= alphabet@.len(),
            forall|k: int| 1 <= k < i ==> alphabet@[k - 1] < #[trigger] alphabet@[k],
        decreases alphabet.len() - i,
    {
        if alphabet[i - 1] >= alphabet[i] {
            return false;
        }
        i += 1;
    }
    proof {
        assert forall|a: int, b: int| 0 <= a < b < alphabet@.len() implies alphabet@[a]
            < alphabet@[b] by {
            lemma_adjacent_ascending(alphabet@, a, b);
        }
    }
    true
}

/// The number of strings of length `width` over an alphabet of `symbols`
/// symbols, unless the number is beyond [`MAX_PARTITIONS`].
pub fn count_prefixes(symbols: u64, width: u32) -> (count: Option<u64>)
    ensures
        match count {
            Some(n) => n == pow(symbols as int, width as nat),
            None => pow(symbols as int, width as nat) > MAX_PARTITIONS,
        },
{
    proof {
        lemma_pow0(symbols as int);
        lemma1_pow(width as nat);
        if width > 0 {
            lemma0_pow(width as nat);
        }
    }
    if width == 0 || symbols == 1 {
        return Some(1);
    }
    if symbols == 0 {
        return Some(0);
    }
    let mut count: u64 = 1;
    let mut k: u32 = 0;
    while k < width
        invariant
            symbols >= 2,
            k <= width,
            count == pow(symbols as int, k as nat),
        decreases width - k,
    {
        proof {
            assert(pow(symbols as int, (k + 1) as nat) == symbols * pow(symbols as int, k as nat))
                by {
                reveal(pow);
            }
            assert(count * symbols == symbols * count) by (nonlinear_arith);
        }
        match count.checked_mul(symbols) {
            Some(next) => {
                count = next;
            },
            None => {
                proof {
                    lemma_pow_increases(symbols as nat, (k + 1) as nat, width as nat);
                }
                return None;
            },
        }
        k += 1;
    }
    Some(count)
}

/// Spells the numeral of `index` with `width` symbols of the alphabet.
pub(crate) fn nth_prefix(alphabet: &[u8], width: u32, index: u64) -> (prefix: Vec<u8>)
    requires
        alphabet@.len() >= 1,
    ensures
        prefix@ == prefix_at(alphabet@, width as nat, index as int),
    decreases width,
{
    if width == 0 {
        Vec::new()
    } else {
        let symbols = alphabet.len() as u64;
        let mut prefix = nth_prefix(alphabet, width - 1, index / symbols);
        prefix.push(alphabet[(index % symbols) as usize]);
        prefix
    }
}

/// Builds the partitions of all strings of length `width` over `alphabet`,
/// in lexicographic order.
///
/// The request is turned down with `InvalidAlphabet` when the alphabet has
/// fewer than two symbols or is not strictly ascending, and otherwise with
/// `InvalidWidth` when the width is zero or spells more than
/// [`MAX_PARTITIONS`] prefixes.
pub fn prefix_partitions(alphabet: &[u8], width: u32, mode: PartitionMode) -> (result: Result<
    Vec<Partition>,
    JobError,
>)
    ensures
        match partition_request_error(alphabet@, width as nat) {
            Some(e) => result == Err::<Vec<Partition>, JobError>(e),
            None => result is Ok && is_partitioning(
                result->Ok_0@,
                alphabet@,
                width as nat,
                mode,
            ),
        },
{
    if !alphabet_is_valid(alphabet) {
        return Err(JobError::InvalidAlphabet);
    }
    proof {
        lemma_ascending_bytes_bounded(alphabet@, alphabet@.len() - 1);
    }
    if width == 0 {
        return Err(JobError::InvalidWidth);
    }
    let count: u64 = match count_prefixes(alphabet.len() as u64, width) {
        Some(n) => n,
        None => {
            return Err(JobError::InvalidWidth);
        },
    };
    proof {
        lemma_pow1(alphabet@.len() as int);
        lemma_pow_increases(alphabet@.len() as nat, 1, width as nat);
    }
    let mut parts: Vec<Partition> = Vec::new();
    let mut i: u64 = 0;
    while i < count
        invariant
            alphabet@.len() >= 1,
            i <= count,
            count >= 2,
            parts@.len() == i,
            forall|k: int|
                0 <= k < i ==> (#[trigger] parts@[k]).lower() == prefix_at(
                    alphabet@,
                    width as nat,
                    k,
                ),
            mode == PartitionMode::IndependentPrefix ==> forall|k: int|
                0 <= k < i ==> (#[trigger] parts@[k]).extent is Prefix,
            mode == PartitionMode::Consecutive ==> forall|k: int|
                0 <= k < i ==> if k + 1 < count {
                    &&& (k == 0 ==> (#[trigger] parts@[k]).extent is Before)
                    &&& (k > 0 ==> parts@[k].extent is Until)
                    &&& parts@[k].upper() == Some(prefix_at(alphabet@, width as nat, k + 1))
                } else {
                    parts@[k].extent is ToEnd
                },
        decreases count - i,
    {
        let prefix = nth_prefix(alphabet, width, i);
        let extent = match mode {
            PartitionMode::IndependentPrefix => Extent::Prefix,
            PartitionMode::Consecutive => if i == 0 {
                Extent::Before(nth_prefix(alphabet, width, 1))
            } else if i + 1 < count {
                Extent::Until(nth_prefix(alphabet, width, i + 1))
            } else {
                Extent::ToEnd
            },
        };
        parts.push(Partition { prefix, extent });
        i += 1;
    }
    proof {
        if mode == PartitionMode::Consecutive {
            let bounds = lower_bounds(parts@);
            assert forall|a: int, b: int| 0 <= a < b < bounds.len() implies lex_lt(
                bounds[a],
                bounds[b],
            ) by {
                lemma_prefixes_ascend(alphabet@, width as nat, a, b);
            }
        }
    }
    Ok(parts)
}

/// Builds the partitions of all strings of `width` hexadecimal digits.
///
/// The request is turned down with `InvalidWidth` when the width is zero or
/// greater than fifteen.
pub fn hex_partitions(width: u32, mode: PartitionMode) -> (result: Result<
    Vec<Partition>,
    JobError,
>)
    ensures
        match result {
            Ok(parts) => valid_width(hex_alphabet(), width as nat) && is_partitioning(
                parts@,
                hex_alphabet(),
                width as nat,
                mode,
            ),
            Err(e) => e == JobError::InvalidWidth && !valid_width(hex_alphabet(), width as nat),
        },
{
    let symbols = hex_symbols();
    prefix_partitions(symbols.as_slice(), width, mode)
}

/// With sixteen symbols the partitioner serves the widths one to fifteen.
pub proof fn lemma_hex_widths(width: nat)
    ensures
        valid_width(hex_alphabet(), width) <==> 1 <= width <= 15,
{
    assert(pow(16, 15) == 0x1000_0000_0000_0000) by {
        reveal_with_fuel(pow, 16);
    }
    assert(pow(16, 16) == 16 * pow(16, 15)) by {
        reveal(pow);
    }
    if width > 15 {
        lemma_pow_increases(16, 16, width);
    } else if width >= 1 {
        lemma_pow_increases(16, width, 15);
    }
}

} // verus!
