//! The two-pointer merge-join: exact set relationships between two sorted
//! key sequences, computed without materialising either of them.

use crate::error::JobError;
use crate::keys::{
    all_at_or_after, all_before, ascending, compare_keys, lemma_ascending_unique,
    lemma_lex_irreflexive, lemma_lex_total, lemma_lex_transitive, lemma_prefix_sorts_first,
    lemma_split_unique, lex_le, lex_lt, KeyOrder,
};
use crate::partition::{hex_partitions, is_consecutive, Partition, PartitionMode};
use crate::scan::{
    entries_within, lemma_partition_slice, lemma_scan_advances, reaches, scan_partition,
    width_error,
};
use crate::store::{keys_of, MemStore};
use vstd::pervasive::unreached;
use vstd::prelude::*;
use vstd::seq_lib::seq_to_set_distributes_over_add;
use vstd::set_lib::{lemma_set_difference_len, lemma_set_disjoint_lens};
use vstd::slice::slice_to_vec;

verus! {

/// How many keys of `a` are not keys of `b`.
pub open spec fn only_in(a: Seq<Seq<u8>>, b: Seq<Seq<u8>>) -> nat {
    a.to_set().difference(b.to_set()).len()
}

/// How many keys are keys of both `a` and `b`.
pub open spec fn in_both(a: Seq<Seq<u8>>, b: Seq<Seq<u8>>) -> nat {
    a.to_set().intersect(b.to_set()).len()
}

/// The outcome of a comparison of two stores.
#[derive(Clone, Copy, Debug, PartialEq, Eq, Structural)]
pub struct JoinCounts {
    /// Keys found in the left store only.
    pub left_only: usize,
    /// Keys found in the right store only.
    pub right_only: usize,
    /// Keys found in both stores.
    pub intersection: usize,
}

/// What one step of the merge does with the two fronts.
#[derive(Clone, Copy, Debug, PartialEq, Eq, Structural)]
pub enum MergeAction {
    /// The left front is a left-only key: it is consumed, the right front
    /// stays.
    TakeLeft,
    /// The right front is a right-only key: it is consumed, the left front
    /// stays.
    TakeRight,
    /// The fronts are equal: both are consumed.
    TakeBoth,
    /// Both sides are exhausted.
    Done,
}

/// The step that the two fronts call for.
pub open spec fn merge_action(left: Option<Seq<u8>>, right: Option<Seq<u8>>) -> MergeAction {
    match (left, right) {
        (None, None) => MergeAction::Done,
        (Some(_), None) => MergeAction::TakeLeft,
        (None, Some(_)) => MergeAction::TakeRight,
        (Some(l), Some(r)) => if l == r {
            MergeAction::TakeBoth
        } else if lex_lt(l, r) {
            MergeAction::TakeLeft
        } else {
            MergeAction::TakeRight
        },
    }
}

/// The bytes of a front, where there is one.
pub open spec fn front_view(front: Option<Vec<u8>>) -> Option<Seq<u8>> {
    match front {
        Some(key) => Some(key@),
        None => None,
    }
}

impl JoinCounts {
    /// The counts are those of the key sets of `left` and `right`.
    pub open spec fn describes(self, left: Seq<Seq<u8>>, right: Seq<Seq<u8>>) -> bool {
        &&& self.left_only == only_in(left, right)
        &&& self.right_only == only_in(right, left)
        &&& self.intersection == in_both(left, right)
    }

    /// The counter that `action` raises can still be raised.
    pub open spec fn has_room(self, action: MergeAction) -> bool {
        match action {
            MergeAction::TakeLeft => self.left_only < usize::MAX,
            MergeAction::TakeRight => self.right_only < usize::MAX,
            MergeAction::TakeBoth => self.intersection < usize::MAX,
            MergeAction::Done => true,
        }
    }

    /// The counts after one more step has been recorded.
    pub open spec fn after(self, action: MergeAction) -> JoinCounts {
        match action {
            MergeAction::TakeLeft => JoinCounts {
                left_only: (self.left_only + 1) as usize,
                ..self
            },
            MergeAction::TakeRight => JoinCounts {
                right_only: (self.right_only + 1) as usize,
                ..self
            },
            MergeAction::TakeBoth => JoinCounts {
                intersection: (self.intersection + 1) as usize,
                ..self
            },
            MergeAction::Done => self,
        }
    }

    /// Whether the component-wise sum with `other` fits the counters.
    pub open spec fn sum_fits(self, other: JoinCounts) -> bool {
        &&& self.left_only + other.left_only <= usize::MAX
        &&& self.right_only + other.right_only <= usize::MAX
        &&& self.intersection + other.intersection <= usize::MAX
    }

    /// The component-wise sum, where it fits.
    pub open spec fn plus(self, other: JoinCounts) -> Option<JoinCounts> {
        if self.sum_fits(other) {
            Some(
                JoinCounts {
                    left_only: (self.left_only + other.left_only) as usize,
                    right_only: (self.right_only + other.right_only) as usize,
                    intersection: (self.intersection + other.intersection) as usize,
                },
            )
        } else {
            None
        }
    }

    /// The counts of two empty stores: the identity of [`JoinCounts::combine`].
    pub fn zero() -> (counts: JoinCounts)
        ensures
            counts == (JoinCounts { left_only: 0, right_only: 0, intersection: 0 }),
    {
        JoinCounts { left_only: 0, right_only: 0, intersection: 0 }
    }

    /// Adds the counts of two disjoint parts of the key space. The result is
    /// `None` where a sum does not fit its counter.
    pub fn combine(self, other: JoinCounts) -> (sum: Option<JoinCounts>)
        ensures
            sum == self.plus(other),
    {
        if self.left_only > usize::MAX - other.left_only {
            return None;
        }
        if self.right_only > usize::MAX - other.right_only {
            return None;
        }
        if self.intersection > usize::MAX - other.intersection {
            return None;
        }
        Some(
            JoinCounts {
                left_only: self.left_only + other.left_only,
                right_only: self.right_only + other.right_only,
                intersection: self.intersection + other.intersection,
            },
        )
    }

    /// The keys of the left store, shared ones included.
    pub fn left_total(self) -> (total: Option<usize>)
        ensures
            match total {
                Some(n) => n == self.left_only + self.intersection,
                None => self.left_only + self.intersection > usize::MAX,
            },
    {
        if self.left_only > usize::MAX - self.intersection {
            None
        } else {
            Some(self.left_only + self.intersection)
        }
    }

    /// The keys of the right store, shared ones included.
    pub fn right_total(self) -> (total: Option<usize>)
        ensures
            match total {
                Some(n) => n == self.right_only + self.intersection,
                None => self.right_only + self.intersection > usize::MAX,
            },
    {
        if self.right_only > usize::MAX - self.intersection {
            None
        } else {
            Some(self.right_only + self.intersection)
        }
    }
}

/// Combining counts does not depend on the order of the two parts.
pub proof fn lemma_combine_commutes(a: JoinCounts, b: JoinCounts)
    ensures
        a.plus(b) == b.plus(a),
{
}

/// Combining counts does not depend on how the parts are grouped.
pub proof fn lemma_combine_associates(a: JoinCounts, b: JoinCounts, c: JoinCounts)
    ensures
        (match a.plus(b) {
            Some(ab) => ab.plus(c),
            None => None,
        }) == (match b.plus(c) {
            Some(bc) => a.plus(bc),
            None => None,
        }),
{
}

/// Combining with the counts of two empty stores changes nothing.
pub proof fn lemma_combine_identity(a: JoinCounts)
    ensures
        a.plus(JoinCounts { left_only: 0, right_only: 0, intersection: 0 }) == Some(a),
{
}

/// The two current fronts of a merge and the counts so far.
///
/// A front that a step did not consume stays in place until a later step
/// consumes it: refilling a side whose front is still there changes nothing.
pub struct MergeState {
    left: Option<Vec<u8>>,
    right: Option<Vec<u8>>,
    counts: JoinCounts,
}

impl MergeState {
    /// The left front: the next key of the left side that no step has
    /// consumed, or `None` where that side is exhausted or awaits a refill.
    pub closed spec fn left(&self) -> Option<Seq<u8>> {
        front_view(self.left)
    }

    /// The right front.
    pub closed spec fn right(&self) -> Option<Seq<u8>> {
        front_view(self.right)
    }

    /// The hits recorded so far.
    pub closed spec fn tally(&self) -> JoinCounts {
        self.counts
    }

    /// Starts a merge with the first key of each side.
    pub fn start(left: Option<Vec<u8>>, right: Option<Vec<u8>>) -> (state: MergeState)
        ensures
            state.left() == front_view(left),
            state.right() == front_view(right),
            state.tally() == (JoinCounts { left_only: 0, right_only: 0, intersection: 0 }),
    {
        MergeState { left, right, counts: JoinCounts::zero() }
    }

    /// The hits recorded so far.
    pub fn counts(&self) -> (counts: JoinCounts)
        ensures
            counts == self.tally(),
    {
        self.counts
    }

    /// Compares the two fronts, records the hit and consumes the front, or
    /// fronts, that the hit belongs to. The other front is kept as it is.
    ///
    /// The answer is `None`, and the state unchanged, where the counter of
    /// the hit is at its maximum.
    pub fn step(&mut self) -> (taken: Option<MergeAction>)
        ensures
            ({
                let action = merge_action(old(self).left(), old(self).right());
                if old(self).tally().has_room(action) {
                    &&& taken == Some(action)
                    &&& final(self).tally() == old(self).tally().after(action)
                    &&& final(self).left() == if action == MergeAction::TakeLeft || action
                        == MergeAction::TakeBoth {
                        None
                    } else {
                        old(self).left()
                    }
                    &&& final(self).right() == if action == MergeAction::TakeRight || action
                        == MergeAction::TakeBoth {
                        None
                    } else {
                        old(self).right()
                    }
                } else {
                    &&& taken is None
                    &&& final(self).tally() == old(self).tally()
                    &&& final(self).left() == old(self).left()
                    &&& final(self).right() == old(self).right()
                }
            }),
    {
        let action = match (&self.left, &self.right) {
            (None, None) => MergeAction::Done,
            (Some(_), None) => MergeAction::TakeLeft,
            (None, Some(_)) => MergeAction::TakeRight,
            (Some(l), Some(r)) => match compare_keys(l.as_slice(), r.as_slice()) {
                KeyOrder::Equal => MergeAction::TakeBoth,
                KeyOrder::Less => {
                    MergeAction::TakeLeft
                },
                KeyOrder::Greater => MergeAction::TakeRight,
            },
        };
        match action {
            MergeAction::TakeLeft => {
                if self.counts.left_only == usize::MAX {
                    return None;
                }
                self.counts.left_only = self.counts.left_only + 1;
                self.left = None;
            },
            MergeAction::TakeRight => {
                if self.counts.right_only == usize::MAX {
                    return None;
                }
                self.counts.right_only = self.counts.right_only + 1;
                self.right = None;
            },
            MergeAction::TakeBoth => {
                if self.counts.intersection == usize::MAX {
                    return None;
                }
                self.counts.intersection = self.counts.intersection + 1;
                self.left = None;
                self.right = None;
            },
            MergeAction::Done => {},
        }
        Some(action)
    }

    /// Hands the merge the next key of the left side, or `None` at its end.
    /// Where the left front has not been consumed the key is refused: the
    /// state stays as it is and the answer is `false`.
    pub fn refill_left(&mut self, next: Option<Vec<u8>>) -> (taken: bool)
        ensures
            taken == (old(self).left() is None),
            final(self).left() == if taken { front_view(next) } else { old(self).left() },
            final(self).right() == old(self).right(),
            final(self).tally() == old(self).tally(),
    {
        if self.left.is_some() {
            false
        } else {
            self.left = next;
            true
        }
    }

    /// Hands the merge the next key of the right side, or `None` at its end.
    /// Where the right front has not been consumed the key is refused: the
    /// state stays as it is and the answer is `false`.
    pub fn refill_right(&mut self, next: Option<Vec<u8>>) -> (taken: bool)
        ensures
            taken == (old(self).right() is None),
            final(self).right() == if taken { front_view(next) } else { old(self).right() },
            final(self).left() == old(self).left(),
            final(self).tally() == old(self).tally(),
    {
        if self.right.is_some() {
            false
        } else {
            self.right = next;
            true
        }
    }
}

proof fn lemma_grow_absent(a: Set<Seq<u8>>, b: Set<Seq<u8>>, x: Seq<u8>)
    requires
        a.finite(),
        !a.contains(x),
        !b.contains(x),
    ensures
        a.insert(x).difference(b).len() == a.difference(b).len() + 1,
        a.insert(x).intersect(b) == a.intersect(b),
{
    assert(a.insert(x).difference(b) =~= a.difference(b).insert(x));
}

proof fn lemma_grow_present(a: Set<Seq<u8>>, b: Set<Seq<u8>>, x: Seq<u8>)
    requires
        a.finite(),
        !a.contains(x),
        b.contains(x),
    ensures
        a.insert(x).difference(b) == a.difference(b),
        a.insert(x).intersect(b).len() == a.intersect(b).len() + 1,
{
    assert(a.insert(x).intersect(b) =~= a.intersect(b).insert(x));
}

/// The first `i` keys of `a` sort before the keys of `b` from `j` on.
pub open spec fn below_rest(a: Seq<Seq<u8>>, b: Seq<Seq<u8>>, i: int, j: int) -> bool {
    forall|x: int, y: int|
        0 <= x < i && j <= y < b.len() ==> lex_lt(#[trigger] a[x], #[trigger] b[y])
}

proof fn lemma_next_key_is_new(a: Seq<Seq<u8>>, i: int)
    requires
        ascending(a),
        0 <= i < a.len(),
    ensures
        a.take(i + 1).to_set() == a.take(i).to_set().insert(a[i]),
        !a.take(i).to_set().contains(a[i]),
        a.take(i).to_set().finite(),
{
    assert(a.take(i + 1) =~= a.take(i).push(a[i]));
    a.take(i).lemma_push_to_set_commute(a[i]);
    if a.take(i).contains(a[i]) {
        lemma_lex_irreflexive(a[i]);
    }
}

/// Consuming a front that is below the other front, or that faces an
/// exhausted side, consumes a key that the other side does not hold.
proof fn lemma_take_one(a: Seq<Seq<u8>>, b: Seq<Seq<u8>>, i: int, j: int)
    requires
        ascending(a),
        ascending(b),
        0 <= i < a.len(),
        0 <= j <= b.len(),
        below_rest(a, b, i, j),
        below_rest(b, a, j, i),
        j == b.len() || lex_lt(a[i], b[j]),
    ensures
        only_in(a.take(i + 1), b) == only_in(a.take(i), b) + 1,
        in_both(a.take(i + 1), b) == in_both(a.take(i), b),
        in_both(b, a.take(i + 1)) == in_both(b, a.take(i)),
        below_rest(a, b, i + 1, j),
        below_rest(b, a, j, i + 1),
{
    lemma_next_key_is_new(a, i);
    let x = a[i];
    if b.contains(x) {
        let y = choose|y: int| 0 <= y < b.len() && b[y] == x;
        if j < y {
            lemma_lex_transitive(a[i], b[j], b[y]);
        }
    }
    lemma_grow_absent(a.take(i).to_set(), b.to_set(), x);
    assert(b.to_set().intersect(a.take(i + 1).to_set()) =~= b.to_set().intersect(
        a.take(i).to_set(),
    ));
    assert forall|x: int, y: int| 0 <= x < i + 1 && j <= y < b.len() implies lex_lt(
        #[trigger] a[x],
        #[trigger] b[y],
    ) by {
        if x == i && j < y {
            lemma_lex_transitive(a[i], b[j], b[y]);
        }
    }
}

/// Consuming two equal fronts consumes a key that both sides hold.
proof fn lemma_take_both(a: Seq<Seq<u8>>, b: Seq<Seq<u8>>, i: int, j: int)
    requires
        ascending(a),
        ascending(b),
        0 <= i < a.len(),
        0 <= j < b.len(),
        below_rest(a, b, i, j),
        below_rest(b, a, j, i),
        a[i] == b[j],
    ensures
        only_in(a.take(i + 1), b) == only_in(a.take(i), b),
        in_both(a.take(i + 1), b) == in_both(a.take(i), b) + 1,
        only_in(b.take(j + 1), a) == only_in(b.take(j), a),
        below_rest(a, b, i + 1, j + 1),
        below_rest(b, a, j + 1, i + 1),
{
    lemma_next_key_is_new(a, i);
    lemma_next_key_is_new(b, j);
    lemma_grow_present(a.take(i).to_set(), b.to_set(), a[i]);
    lemma_grow_present(b.take(j).to_set(), a.to_set(), b[j]);
}

/// The three counts account for every key of each side exactly once: the
/// left-only keys and the shared keys are all keys of the left side, the
/// right-only keys and the shared keys are all keys of the right side, and
/// the shared keys are the intersection of the two key sets.
pub proof fn lemma_counts_cover_sides(left: Seq<Seq<u8>>, right: Seq<Seq<u8>>)
    requires
        ascending(left),
        ascending(right),
    ensures
        only_in(left, right) + in_both(left, right) == left.len(),
        only_in(right, left) + in_both(left, right) == right.len(),
        in_both(left, right) == left.to_set().intersect(right.to_set()).len(),
{
    lemma_ascending_unique(left);
    lemma_ascending_unique(right);
    left.unique_seq_to_set();
    right.unique_seq_to_set();
    lemma_set_difference_len(left.to_set(), right.to_set());
    lemma_set_difference_len(right.to_set(), left.to_set());
    assert(left.to_set().intersect(right.to_set()) =~= right.to_set().intersect(left.to_set()));
}

/// The key at an index of a range of a store, copied out, or `None` at the
/// end of the range.
fn front_at(store: &MemStore, index: usize, end: usize) -> (front: Option<Vec<u8>>)
    requires
        index <= end <= store@.len(),
    ensures
        front_view(front) == if index < end {
            Some(store.keys()[index as int])
        } else {
            None
        },
{
    if index < end {
        Some(slice_to_vec(store.entry(index).key.as_slice()))
    } else {
        None
    }
}

/// Merges a range of the left store with a range of the right store and
/// counts the keys found on the left only, on the right only, and on both.
pub fn merge_join(
    left: &MemStore,
    left_range: (usize, usize),
    right: &MemStore,
    right_range: (usize, usize),
) -> (counts: JoinCounts)
    requires
        left_range.0 <= left_range.1 <= left@.len(),
        right_range.0 <= right_range.1 <= right@.len(),
    ensures
        counts.describes(
            left.keys().subrange(left_range.0 as int, left_range.1 as int),
            right.keys().subrange(right_range.0 as int, right_range.1 as int),
        ),
{
    proof {
        use_type_invariant(left);
        use_type_invariant(right);
    }
    let (ls, le) = left_range;
    let (rs, re) = right_range;
    let ghost a = left.keys().subrange(ls as int, le as int);
    let ghost b = right.keys().subrange(rs as int, re as int);
    proof {
        assert(a.take(0).to_set().difference(b.to_set()) =~= Set::<Seq<u8>>::empty());
        assert(a.take(0).to_set().intersect(b.to_set()) =~= Set::<Seq<u8>>::empty());
        assert(b.take(0).to_set().difference(a.to_set()) =~= Set::<Seq<u8>>::empty());
    }
    let mut i: usize = ls;
    let mut j: usize = rs;
    let mut state = MergeState::start(front_at(left, i, le), front_at(right, j, re));
    let mut done = false;
    while !done
        invariant
            left.wf(),
            right.wf(),
            ls <= i <= le <= left@.len(),
            rs <= j <= re <= right@.len(),
            a == left.keys().subrange(ls as int, le as int),
            b == right.keys().subrange(rs as int, re as int),
            ascending(a),
            ascending(b),
            state.left() == if i < le { Some(a[i - ls]) } else { None },
            state.right() == if j < re { Some(b[j - rs]) } else { None },
            below_rest(a, b, i - ls, j - rs),
            below_rest(b, a, j - rs, i - ls),
            state.tally().left_only == only_in(a.take(i - ls), b),
            state.tally().intersection == in_both(a.take(i - ls), b),
            state.tally().right_only == only_in(b.take(j - rs), a),
            state.tally().left_only + state.tally().intersection == i - ls,
            state.tally().right_only + state.tally().intersection == j - rs,
            done ==> i == le && j == re,
        decreases (le - i) + (re - j) + (if done { 0int } else { 1int }),
    {
        let action = match state.step() {
            Some(action) => action,
            None => unreached(),
        };
        match action {
            MergeAction::Done => {
                done = true;
            },
            MergeAction::TakeLeft => {
                proof {
                    lemma_take_one(a, b, i - ls, j - rs);
                }
                i += 1;
                state.refill_left(front_at(left, i, le));
            },
            MergeAction::TakeRight => {
                proof {
                    if i < le {
                        lemma_lex_total(a[i - ls], b[j - rs]);
                    }
                    lemma_take_one(b, a, j - rs, i - ls);
                }
                j += 1;
                state.refill_right(front_at(right, j, re));
            },
            MergeAction::TakeBoth => {
                proof {
                    lemma_take_both(a, b, i - ls, j - rs);
                }
                i += 1;
                j += 1;
                state.refill_left(front_at(left, i, le));
                state.refill_right(front_at(right, j, re));
            },
        }
    }
    proof {
        assert(a.take(a.len() as int) =~= a);
        assert(b.take(b.len() as int) =~= b);
    }
    state.counts()
}

proof fn lemma_sides_of_bound(low: Seq<Seq<u8>>, high: Seq<Seq<u8>>, bound: Seq<u8>)
    requires
        all_before(low, bound),
        all_at_or_after(high, bound),
    ensures
        forall|x: Seq<u8>| low.to_set().contains(x) ==> lex_lt(x, bound),
        forall|x: Seq<u8>| high.to_set().contains(x) ==> !lex_lt(x, bound),
        (low + high).to_set() == low.to_set() + high.to_set(),
        low.to_set().finite(),
        high.to_set().finite(),
{
    seq_to_set_distributes_over_add(low, high);
}

/// Keys on one side of a bound never meet keys on the other side: the
/// counts of two sequences that are each cut at the same bound are the sums
/// of the counts below the bound and of the counts from the bound on.
pub proof fn lemma_counts_add_across_bound(
    a_low: Seq<Seq<u8>>,
    a_high: Seq<Seq<u8>>,
    b_low: Seq<Seq<u8>>,
    b_high: Seq<Seq<u8>>,
    bound: Seq<u8>,
)
    requires
        all_before(a_low, bound),
        all_at_or_after(a_high, bound),
        all_before(b_low, bound),
        all_at_or_after(b_high, bound),
    ensures
        only_in(a_low + a_high, b_low + b_high) == only_in(a_low, b_low) + only_in(a_high, b_high),
        only_in(b_low + b_high, a_low + a_high) == only_in(b_low, a_low) + only_in(b_high, a_high),
        in_both(a_low + a_high, b_low + b_high) == in_both(a_low, b_low) + in_both(a_high, b_high),
{
    lemma_sides_of_bound(a_low, a_high, bound);
    lemma_sides_of_bound(b_low, b_high, bound);
    let (al, ah) = (a_low.to_set(), a_high.to_set());
    let (bl, bh) = (b_low.to_set(), b_high.to_set());
    assert((al + ah).difference(bl + bh) =~= al.difference(bl) + ah.difference(bh));
    assert((bl + bh).difference(al + ah) =~= bl.difference(al) + bh.difference(ah));
    assert((al + ah).intersect(bl + bh) =~= al.intersect(bl) + ah.intersect(bh));
    lemma_set_disjoint_lens(al.difference(bl), ah.difference(bh));
    lemma_set_disjoint_lens(bl.difference(al), bh.difference(ah));
    lemma_set_disjoint_lens(al.intersect(bl), ah.intersect(bh));
}

/// Why a comparison does not start, if it does not. Without a width the
/// stores are merged as a whole and nothing stands in the way. With a width
/// the width is judged as for any job over hexadecimal partitions.
pub open spec fn compare_error(width: Option<u32>) -> Option<JobError> {
    match width {
        None => None,
        Some(w) => width_error(w as nat),
    }
}

/// Two sorted key lists taken one partition further: the counts of what the
/// two lists hold up to the end of a partition are the counts of what they
/// hold before it and the counts of what they hold within it.
proof fn lemma_counts_step(
    a: Seq<Seq<u8>>,
    b: Seq<Seq<u8>>,
    parts: Seq<Partition>,
    i: int,
    from: (int, int),
    to: (int, int),
)
    requires
        is_consecutive(parts),
        0 <= i < parts.len(),
        reaches(a, parts, i, from.0),
        reaches(b, parts, i, from.1),
        0 <= from.0 <= to.0 <= a.len(),
        0 <= from.1 <= to.1 <= b.len(),
    ensures
        only_in(a.take(to.0), b.take(to.1)) == only_in(a.take(from.0), b.take(from.1)) + only_in(
            a.subrange(from.0, to.0),
            b.subrange(from.1, to.1),
        ),
        only_in(b.take(to.1), a.take(to.0)) == only_in(b.take(from.1), a.take(from.0)) + only_in(
            b.subrange(from.1, to.1),
            a.subrange(from.0, to.0),
        ),
        in_both(a.take(to.0), b.take(to.1)) == in_both(a.take(from.0), b.take(from.1)) + in_both(
            a.subrange(from.0, to.0),
            b.subrange(from.1, to.1),
        ),
{
    let (a_low, a_high) = (a.take(from.0), a.subrange(from.0, to.0));
    let (b_low, b_high) = (b.take(from.1), b.subrange(from.1, to.1));
    let bound = if i == 0 { Seq::<u8>::empty() } else { parts[i].lower() };
    assert(a_low + a_high =~= a.take(to.0));
    assert(b_low + b_high =~= b.take(to.1));
    assert forall|j: int| 0 <= j < a_high.len() implies lex_le(bound, #[trigger] a_high[j]) by {
        if i == 0 {
            lemma_prefix_sorts_first(bound, a_high[j]);
        } else {
            assert(a_high[j] == a[from.0 + j]);
        }
    }
    assert forall|j: int| 0 <= j < b_high.len() implies lex_le(bound, #[trigger] b_high[j]) by {
        if i == 0 {
            lemma_prefix_sorts_first(bound, b_high[j]);
        } else {
            assert(b_high[j] == b[from.1 + j]);
        }
    }
    lemma_counts_add_across_bound(a_low, a_high, b_low, b_high, bound);
}


/// Compares two stores: counts the keys that only the left store holds, the
/// keys that only the right store holds, and the keys that both hold.
///
/// Without a width the two stores are merged as a whole. With a width the
/// merge runs once per consecutive hexadecimal partition, on the entries of
/// both stores that belong to it, and the counts are combined. Both ways
/// give the same counts.
pub fn compare_stores(left: &MemStore, right: &MemStore, width: Option<u32>) -> (result: Result<
    JoinCounts,
    JobError,
>)
    ensures
        match compare_error(width) {
            Some(e) => result == Err::<JoinCounts, JobError>(e),
            None => result is Ok && result->Ok_0.describes(left.keys(), right.keys()),
        },
{
    proof {
        use_type_invariant(left);
        use_type_invariant(right);
    }
    let width = match width {
        Some(width) => width,
        None => {
            proof {
                assert(left.keys().subrange(0, left@.len() as int) =~= left.keys());
                assert(right.keys().subrange(0, right@.len() as int) =~= right.keys());
            }
            return Ok(merge_join(left, (0, left.len()), right, (0, right.len())));
        },
    };
    let parts = match hex_partitions(width, PartitionMode::Consecutive) {
        Ok(parts) => parts,
        Err(e) => {
            return Err(e);
        },
    };
    let ghost a = left.keys();
    let ghost b = right.keys();
    let mut total = JoinCounts::zero();
    let mut left_done: usize = 0;
    let mut right_done: usize = 0;
    let mut i: usize = 0;
    proof {
        assert(a.take(0).to_set() =~= Set::<Seq<u8>>::empty());
        assert(b.take(0).to_set() =~= Set::<Seq<u8>>::empty());
        assert(a.take(0).to_set().difference(b.take(0).to_set()) =~= Set::<Seq<u8>>::empty());
        assert(a.take(0).to_set().intersect(b.take(0).to_set()) =~= Set::<Seq<u8>>::empty());
    }
    while i < parts.len()
        invariant
            left.wf(),
            right.wf(),
            a == left.keys(),
            b == right.keys(),
            is_consecutive(parts@),
            i <= parts@.len(),
            left_done <= a.len(),
            right_done <= b.len(),
            total.describes(a.take(left_done as int), b.take(right_done as int)),
            reaches(a, parts@, i as int, left_done as int),
            reaches(b, parts@, i as int, right_done as int),
        decreases parts@.len() - i,
    {
        let (ls, le) = scan_partition(left, &parts[i]);
        let (rs, re) = scan_partition(right, &parts[i]);
        let counts = merge_join(left, (ls, le), right, (rs, re));
        proof {
            lemma_scan_advances(
                a,
                parts@,
                i as int,
                left_done as int,
                ls as int,
                le as int,
            );
            lemma_scan_advances(
                b,
                parts@,
                i as int,
                right_done as int,
                rs as int,
                re as int,
            );
            lemma_counts_step(
                a,
                b,
                parts@,
                i as int,
                (ls as int, rs as int),
                (le as int, re as int),
            );
            lemma_counts_cover_sides(a.take(le as int), b.take(re as int));
        }
        total = match total.combine(counts) {
            Some(sum) => sum,
            None => unreached(),
        };
        left_done = le;
        right_done = re;
        i += 1;
    }
    proof {
        assert(a.take(a.len() as int) =~= a);
        assert(b.take(b.len() as int) =~= b);
    }
    Ok(total)
}

/// The sums, over the partitions, of the three counts of the entries of
/// the two stores that belong to each partition: left only, right only,
/// both.
pub open spec fn partitioned_counts(
    left: Seq<(Seq<u8>, Seq<u8>)>,
    right: Seq<(Seq<u8>, Seq<u8>)>,
    parts: Seq<Partition>,
) -> (nat, nat, nat)
    decreases parts.len(),
{
    if parts.len() == 0 {
        (0, 0, 0)
    } else {
        let rest = partitioned_counts(left, right, parts.drop_last());
        let l = keys_of(entries_within(left, parts.last()));
        let r = keys_of(entries_within(right, parts.last()));
        (rest.0 + only_in(l, r), rest.1 + only_in(r, l), rest.2 + in_both(l, r))
    }
}

proof fn lemma_partitioned_counts_up_to(
    left: Seq<(Seq<u8>, Seq<u8>)>,
    right: Seq<(Seq<u8>, Seq<u8>)>,
    parts: Seq<Partition>,
    m: int,
) -> (done: (int, int))
    requires
        ascending(keys_of(left)),
        ascending(keys_of(right)),
        is_consecutive(parts),
        0 <= m <= parts.len(),
    ensures
        0 <= done.0 <= left.len(),
        0 <= done.1 <= right.len(),
        reaches(keys_of(left), parts, m, done.0),
        reaches(keys_of(right), parts, m, done.1),
        partitioned_counts(left, right, parts.take(m)) == (
            only_in(keys_of(left).take(done.0), keys_of(right).take(done.1)),
            only_in(keys_of(right).take(done.1), keys_of(left).take(done.0)),
            in_both(keys_of(left).take(done.0), keys_of(right).take(done.1)),
        ),
    decreases m,
{
    let (a, b) = (keys_of(left), keys_of(right));
    if m == 0 {
        assert(a.take(0).to_set() =~= Set::<Seq<u8>>::empty());
        assert(b.take(0).to_set() =~= Set::<Seq<u8>>::empty());
        assert(a.take(0).to_set().difference(b.take(0).to_set()) =~= Set::<Seq<u8>>::empty());
        assert(a.take(0).to_set().intersect(b.take(0).to_set()) =~= Set::<Seq<u8>>::empty());
        assert(b.take(0).to_set().difference(a.take(0).to_set()) =~= Set::<Seq<u8>>::empty());
        (0, 0)
    } else {
        let before = lemma_partitioned_counts_up_to(left, right, parts, m - 1);
        let (ls, le) = lemma_partition_slice(left, parts, m - 1);
        let (rs, re) = lemma_partition_slice(right, parts, m - 1);
        if m - 1 > 0 {
            lemma_split_unique(a, parts[m - 1].lower(), ls, before.0);
            lemma_split_unique(b, parts[m - 1].lower(), rs, before.1);
        }
        assert(parts.take(m).drop_last() =~= parts.take(m - 1));
        assert(parts.take(m).last() == parts[m - 1]);
        assert(keys_of(left.subrange(ls, le)) =~= a.subrange(ls, le));
        assert(keys_of(right.subrange(rs, re)) =~= b.subrange(rs, re));
        lemma_counts_step(a, b, parts, m - 1, (ls, rs), (le, re));
        (le, re)
    }
}

/// Comparing partition by partition gives the counts of the comparison as
/// a whole: over consecutive partitions the per-partition counts add up to
/// the counts of the two key sets.
pub proof fn lemma_partitioned_comparison_agrees(
    left: Seq<(Seq<u8>, Seq<u8>)>,
    right: Seq<(Seq<u8>, Seq<u8>)>,
    parts: Seq<Partition>,
)
    requires
        ascending(keys_of(left)),
        ascending(keys_of(right)),
        is_consecutive(parts),
    ensures
        partitioned_counts(left, right, parts) == (
            only_in(keys_of(left), keys_of(right)),
            only_in(keys_of(right), keys_of(left)),
            in_both(keys_of(left), keys_of(right)),
        ),
{
    lemma_partitioned_counts_up_to(left, right, parts, parts.len() as int);
    assert(parts.take(parts.len() as int) =~= parts);
    assert(keys_of(left).take(left.len() as int) =~= keys_of(left));
    assert(keys_of(right).take(right.len() as int) =~= keys_of(right));
}

} // verus!
