//! Fixed-capacity bit sets backed by one unsigned machine word.

use crate::adapters::{count_ones_u32, count_ones_u64, reverse_bits_u32, reverse_bits_u64};
use crate::word::{bit32, bit64, ones32, ones64, BitWord};
use std::ops::{Range, RangeFrom, RangeTo};
use vstd::prelude::*;

verus! {

/// Words that can count their one bits.
pub trait CountOnes: BitWord {
    /// The number of one bits of the word.
    fn count_ones(&self) -> (n: usize)
        ensures
            n == Set::new(|i: nat| self.has_bit(i)).len(),
    ;
}

impl CountOnes for u64 {
    fn count_ones(&self) -> (n: usize) {
        assert(Set::new(|i: nat| self.has_bit(i)) =~= ones64(*self));
        count_ones_u64(*self) as usize
    }
}

impl CountOnes for u32 {
    fn count_ones(&self) -> (n: usize) {
        assert(Set::new(|i: nat| self.has_bit(i)) =~= ones32(*self));
        count_ones_u32(*self) as usize
    }
}

/// Words that can reverse the order of their bits.
pub trait ReverseBits: BitWord {
    /// The word read from the other end: bit `i` of the result is bit
    /// `width() - 1 - i` of the word.
    fn reverse_bits(&self) -> (r: Self)
        ensures
            forall|i: nat| #[trigger]
                r.has_bit(i) == (i < Self::width() && self.has_bit((Self::width() - 1 - i) as nat)),
    ;
}

impl ReverseBits for u64 {
    fn reverse_bits(&self) -> (r: Self) {
        let r = reverse_bits_u64(*self);
        proof {
            assert forall|i: nat| #[trigger]
                r.has_bit(i) == (i < 64 && self.has_bit((64 - 1 - i) as nat)) by {
                if i < 64 {
                    assert(bit64(r, i as u64) == bit64(*self, (63 - i as u64) as u64));
                }
            }
        }
        r
    }
}

impl ReverseBits for u32 {
    fn reverse_bits(&self) -> (r: Self) {
        let r = reverse_bits_u32(*self);
        proof {
            assert forall|i: nat| #[trigger]
                r.has_bit(i) == (i < 32 && self.has_bit((32 - 1 - i) as nat)) by {
                if i < 32 {
                    assert(bit32(r, i as u32) == bit32(*self, (31 - i as u32) as u32));
                }
            }
        }
        r
    }
}

/// A set of bit positions below the width of `T`, held in one word: position
/// `i` is a member exactly when bit `i` of `val` is one.
#[derive(Clone, Copy, PartialEq, Eq, Structural, Debug, PartialOrd, Ord, Hash)]
pub struct FixedBitSet<T> {
    pub val: T,
}

impl<T: BitWord> Default for FixedBitSet<T> {
    /// The set without members.
    fn default() -> (r: Self)
        ensures
            r@ == Set::<nat>::empty(),
    {
        let r = FixedBitSet { val: T::zero() };
        assert(r@ =~= Set::<nat>::empty());
        r
    }
}

/// A set of positions below 32.
pub type U32Set = FixedBitSet<u32>;

/// A set of positions below 64.
pub type U64Set = FixedBitSet<u64>;

impl<T: BitWord> View for FixedBitSet<T> {
    type V = Set<nat>;

    open spec fn view(&self) -> Set<nat> {
        Set::new(|i: nat| self.val.has_bit(i))
    }
}

/// The positions below `n`.
pub open spec fn below(n: nat) -> Set<nat> {
    Set::new(|i: nat| i < n)
}

/// There are `n` positions below `n`.
pub proof fn lemma_below_len(n: nat)
    ensures
        below(n).finite(),
        below(n).len() == n,
    decreases n,
{
    if n == 0 {
        assert(below(0) =~= Set::<nat>::empty());
    } else {
        lemma_below_len((n - 1) as nat);
        assert(below(n) =~= below((n - 1) as nat).insert((n - 1) as nat));
    }
}

/// What can be used to read from a bit set: a position, or a range of
/// positions.
pub trait SliceIndexBitSet<T: BitWord>: Sized {
    /// What a read through this index gives.
    type Output;

    /// Whether the index lies within the capacity of a set over `T`.
    spec fn in_bounds(self) -> bool;

    /// Whether `out` is what this index selects from `set`.
    spec fn selects(self, set: &FixedBitSet<T>, out: Self::Output) -> bool;

    /// Reads from `set`, or gives `None` when the index is out of bounds.
    fn get(self, set: &FixedBitSet<T>) -> (r: Option<Self::Output>)
        ensures
            r.is_some() == self.in_bounds(),
            r matches Some(out) ==> self.selects(set, out),
    ;

    /// Reads from `set` through an index known to be in bounds.
    fn index(self, set: &FixedBitSet<T>) -> (r: Self::Output)
        requires
            self.in_bounds(),
        ensures
            self.selects(set, r),
    ;
}

/// A position selects whether it is a member; it is in bounds below the
/// width.
impl<T: BitWord> SliceIndexBitSet<T> for usize {
    type Output = bool;

    open spec fn in_bounds(self) -> bool {
        self < T::width()
    }

    open spec fn selects(self, set: &FixedBitSet<T>, out: bool) -> bool {
        out == set@.contains(self as nat)
    }

    fn get(self, set: &FixedBitSet<T>) -> (r: Option<bool>) {
        if self < T::bit_width() {
            Some(set.test(self))
        } else {
            None
        }
    }

    fn index(self, set: &FixedBitSet<T>) -> (r: bool) {
        set.test(self)
    }
}

/// A range `start..end` selects the members from `start` up to, not
/// including, `end`, each moved down by `start`; it is in bounds when
/// `start <= end` and `end` is at most the width.
impl<T: BitWord> SliceIndexBitSet<T> for Range<usize> {
    type Output = FixedBitSet<T>;

    open spec fn in_bounds(self) -> bool {
        self.start <= self.end <= T::width()
    }

    open spec fn selects(self, set: &FixedBitSet<T>, out: FixedBitSet<T>) -> bool {
        out@ == Set::new(|j: nat| self.start + j < self.end && set@.contains(self.start as nat + j))
    }

    fn get(self, set: &FixedBitSet<T>) -> (r: Option<FixedBitSet<T>>) {
        if self.end <= T::bit_width() && self.start <= self.end {
            Some(self.index(set))
        } else {
            None
        }
    }

    fn index(self, set: &FixedBitSet<T>) -> (r: FixedBitSet<T>) {
        let w = T::bit_width();
        let low = if self.end == 0 {
            T::zero()
        } else {
            set.val.and(T::max_value().shr(w - self.end))
        };
        let val = if self.start >= w {
            T::zero()
        } else {
            low.shr(self.start)
        };
        let r = FixedBitSet { val };
        proof {
            let want = Set::new(
                |j: nat| self.start + j < self.end && set@.contains(self.start as nat + j),
            );
            assert forall|j: nat| r@.contains(j) == want.contains(j) by {
                if set.val.has_bit(self.start as nat + j) {
                    set.val.lemma_bit_in_width(self.start as nat + j);
                }
            }
            assert(r@ =~= want);
        }
        r
    }
}

/// A range `start..` selects the members from `start` on, each moved down
/// by `start`; it is in bounds when `start` is at most the width.
impl<T: BitWord> SliceIndexBitSet<T> for RangeFrom<usize> {
    type Output = FixedBitSet<T>;

    open spec fn in_bounds(self) -> bool {
        self.start <= T::width()
    }

    open spec fn selects(self, set: &FixedBitSet<T>, out: FixedBitSet<T>) -> bool {
        out@ == Set::new(|j: nat| set@.contains(self.start as nat + j))
    }

    fn get(self, set: &FixedBitSet<T>) -> (r: Option<FixedBitSet<T>>) {
        if self.start <= T::bit_width() {
            Some(self.index(set))
        } else {
            None
        }
    }

    fn index(self, set: &FixedBitSet<T>) -> (r: FixedBitSet<T>) {
        let r = (self.start..T::bit_width()).index(set);
        proof {
            let want = Set::new(|j: nat| set@.contains(self.start as nat + j));
            assert forall|j: nat| r@.contains(j) == want.contains(j) by {
                if set.val.has_bit(self.start as nat + j) {
                    set.val.lemma_bit_in_width(self.start as nat + j);
                }
            }
            assert(r@ =~= want);
        }
        r
    }
}

/// A range `..end` selects the members below `end`; it is in bounds when
/// `end` is at most the width.
impl<T: BitWord> SliceIndexBitSet<T> for RangeTo<usize> {
    type Output = FixedBitSet<T>;

    open spec fn in_bounds(self) -> bool {
        self.end <= T::width()
    }

    open spec fn selects(self, set: &FixedBitSet<T>, out: FixedBitSet<T>) -> bool {
        out@ == Set::new(|j: nat| j < self.end && set@.contains(j))
    }

    fn get(self, set: &FixedBitSet<T>) -> (r: Option<FixedBitSet<T>>) {
        if self.end <= T::bit_width() {
            Some(self.index(set))
        } else {
            None
        }
    }

    fn index(self, set: &FixedBitSet<T>) -> (r: FixedBitSet<T>) {
        let r = (0..self.end).index(set);
        assert(r@ =~= Set::new(|j: nat| j < self.end && set@.contains(j)));
        r
    }
}

impl<T: BitWord> FixedBitSet<T> {
    /// The set whose members are the one bits of `val`.
    pub fn new(val: T) -> (r: FixedBitSet<T>)
        ensures
            r.val == val,
    {
        FixedBitSet { val }
    }

    /// A bit set is determined by its members.
    pub proof fn lemma_view_determines(self, other: FixedBitSet<T>)
        requires
            self@ == other@,
        ensures
            self == other,
    {
        assert forall|i: nat| self.val.has_bit(i) == other.val.has_bit(i) by {
            assert(self@.contains(i) == self.val.has_bit(i));
            assert(other@.contains(i) == other.val.has_bit(i));
        }
        self.val.lemma_same_bits(other.val);
    }

    /// Every member lies below the width, so there are at most `width()` of
    /// them.
    pub proof fn lemma_view_bounded(self)
        ensures
            self@.finite(),
            self@.len() <= T::width(),
            forall|i: nat| self@.contains(i) ==> i < T::width(),
    {
        assert forall|i: nat| self@.contains(i) implies i < T::width() by {
            self.val.lemma_bit_in_width(i);
        }
        lemma_below_len(T::width());
        assert(self@.subset_of(below(T::width())));
        vstd::set_lib::lemma_len_subset(self@, below(T::width()));
    }

    /// Whether position `i` is a member.
    fn test(&self, i: usize) -> (r: bool)
        requires
            i < T::width(),
        ensures
            r == self@.contains(i as nat),
    {
        let probe = self.val.and(T::one().shl(i));
        let zero = T::zero();
        proof {
            if !self.val.has_bit(i as nat) {
                assert forall|j: nat| probe.has_bit(j) == zero.has_bit(j) by {}
                probe.lemma_same_bits(zero);
            } else {
                assert(probe.has_bit(i as nat));
            }
        }
        !probe.same(zero)
    }

    /// Reads a position or a range of positions; `None` when it reaches
    /// outside the capacity.
    pub fn get<I: SliceIndexBitSet<T>>(&self, i: I) -> (r: Option<I::Output>)
        ensures
            r.is_some() == i.in_bounds(),
            r matches Some(out) ==> i.selects(self, out),
    {
        i.get(self)
    }

    /// Keeps only the members that `other` has too.
    pub fn intersect_with(&mut self, other: FixedBitSet<T>)
        ensures
            final(self)@ == old(self)@.intersect(other@),
    {
        self.val = self.val.and(other.val);
        assert(self@ =~= old(self)@.intersect(other@));
    }

    /// The members common to both sets.
    pub fn intersect(self, other: FixedBitSet<T>) -> (r: FixedBitSet<T>)
        ensures
            r@ == self@.intersect(other@),
    {
        let r = FixedBitSet { val: self.val.and(other.val) };
        assert(r@ =~= self@.intersect(other@));
        r
    }

    /// Adds the members of `other`.
    pub fn union_with(&mut self, other: FixedBitSet<T>)
        ensures
            final(self)@ == old(self)@.union(other@),
    {
        self.val = self.val.or(other.val);
        assert(self@ =~= old(self)@.union(other@));
    }

    /// The members of either set.
    pub fn union(self, other: FixedBitSet<T>) -> (r: FixedBitSet<T>)
        ensures
            r@ == self@.union(other@),
    {
        let r = FixedBitSet { val: self.val.or(other.val) };
        assert(r@ =~= self@.union(other@));
        r
    }

    /// The number of members.
    pub fn len(self) -> (n: usize) where T: CountOnes
        ensures
            n == self@.len(),
    {
        self.val.count_ones()
    }

    /// Whether the set has no member.
    pub fn is_empty(self) -> (r: bool) where T: CountOnes
        ensures
            r == (self@ == Set::<nat>::empty()),
    {
        proof {
            self.lemma_view_bounded();
            if self@.len() == 0 {
                self@.lemma_len0_is_empty();
            }
        }
        self.len() == 0
    }

    /// The first `i` positions in reverse order: position `j < i` is a member
    /// of the result exactly when `i - 1 - j` is a member of the set. No
    /// position from `i` on is a member of the result.
    pub fn revn(self, i: usize) -> (r: FixedBitSet<T>) where T: ReverseBits
        requires
            i <= T::width(),
        ensures
            r@ == Set::new(|j: nat| j < i && self@.contains((i - 1 - j) as nat)),
    {
        let w = T::bit_width();
        let val = if i == 0 {
            T::zero()
        } else {
            self.val.reverse_bits().shr(w - i)
        };
        let r = FixedBitSet { val };
        assert(r@ =~= Set::new(|j: nat| j < i && self@.contains((i - 1 - j) as nat)));
        r
    }

    /// All positions in reverse order: position `j` is a member of the result
    /// exactly when `width() - 1 - j` is a member of the set.
    pub fn rev(self) -> (r: FixedBitSet<T>) where T: ReverseBits
        ensures
            r@ == Set::new(
                |j: nat| j < T::width() && self@.contains((T::width() - 1 - j) as nat),
            ),
    {
        let r = FixedBitSet { val: self.val.reverse_bits() };
        assert(r@ =~= Set::new(
            |j: nat| j < T::width() && self@.contains((T::width() - 1 - j) as nat),
        ));
        r
    }

    /// Membership of the first `n` positions, in order. Positions at or above
    /// the width are never members.
    pub fn iter_bits(self, n: usize) -> (bits: Vec<bool>)
        ensures
            bits@.len() == n,
            forall|k: int| 0 <= k < n ==> bits@[k] == self@.contains(k as nat),
    {
        let w = T::bit_width();
        let mut bits: Vec<bool> = Vec::new();
        let mut k: usize = 0;
        while k < n
            invariant
                k <= n,
                w == T::width(),
                bits@.len() == k,
                forall|j: int| 0 <= j < k ==> bits@[j] == self@.contains(j as nat),
            decreases n - k,
        {
            let bit = if k < w {
                self.test(k)
            } else {
                proof {
                    if self.val.has_bit(k as nat) {
                        self.val.lemma_bit_in_width(k as nat);
                    }
                }
                false
            };
            bits.push(bit);
            k += 1;
        }
        bits
    }

    /// The members below `n` in ascending order.
    pub open spec fn members_below(self, n: nat) -> Seq<usize>
        decreases n,
    {
        if n == 0 {
            Seq::empty()
        } else {
            let rest = self.members_below((n - 1) as nat);
            if self@.contains((n - 1) as nat) {
                rest.push((n - 1) as usize)
            } else {
                rest
            }
        }
    }

    /// The members in ascending order.
    pub fn iter_pos(self) -> (positions: Vec<usize>)
        ensures
            positions@ == self.members_below(T::width()),
            forall|k: int| 0 <= k < positions@.len() ==> self@.contains(positions@[k] as nat),
            forall|i: nat|
                self@.contains(i) ==> exists|k: int|
                    0 <= k < positions@.len() && positions@[k] == i,
            forall|a: int, b: int| 0 <= a < b < positions@.len() ==> positions@[a] < positions@[b],
    {
        let w = T::bit_width();
        let mut positions: Vec<usize> = Vec::new();
        let mut i: usize = 0;
        while i < w
            invariant
                i <= w,
                w == T::width(),
                positions@ == self.members_below(i as nat),
                forall|k: int| 0 <= k < positions@.len() ==> positions@[k] < i,
                forall|k: int|
                    0 <= k < positions@.len() ==> self@.contains(positions@[k] as nat),
                forall|j: nat|
                    j < i && self@.contains(j) ==> exists|k: int|
                        0 <= k < positions@.len() && positions@[k] == j,
                forall|a: int, b: int|
                    0 <= a < b < positions@.len() ==> positions@[a] < positions@[b],
            decreases w - i,
        {
            if self.test(i) {
                let ghost before = positions@;
                positions.push(i);
                proof {
                    assert forall|j: nat| j < i + 1 && self@.contains(j) implies exists|k: int|
                        0 <= k < positions@.len() && positions@[k] == j by {
                        if j < i {
                            let k = choose|k: int| 0 <= k < before.len() && before[k] == j;
                            assert(positions@[k] == j);
                        } else {
                            assert(positions@[before.len() as int] == j);
                        }
                    }
                }
            }
            i += 1;
        }
        proof {
            assert forall|j: nat| self@.contains(j) implies exists|k: int|
                0 <= k < positions@.len() && positions@[k] == j by {
                self.val.lemma_bit_in_width(j);
            }
        }
        positions
    }

    /// The set of the given positions.
    pub fn from_positions(positions: &Vec<usize>) -> (r: FixedBitSet<T>)
        requires
            forall|k: int| 0 <= k < positions@.len() ==> positions@[k] < T::width(),
        ensures
            forall|i: nat|
                r@.contains(i) <==> exists|k: int|
                    0 <= k < positions@.len() && positions@[k] == i,
    {
        let mut val = T::zero();
        let mut n: usize = 0;
        while n < positions.len()
            invariant
                n <= positions@.len(),
                forall|k: int| 0 <= k < positions@.len() ==> positions@[k] < T::width(),
                forall|i: nat|
                    val.has_bit(i) <==> exists|k: int| 0 <= k < n && positions@[k] == i,
            decreases positions@.len() - n,
        {
            let ghost before = val;
            let p = positions[n];
            val = val.or(T::one().shl(p));
            proof {
                assert forall|i: nat| val.has_bit(i) <==> exists|k: int|
                    0 <= k < n + 1 && positions@[k] == i by {
                    if before.has_bit(i) {
                        let k = choose|k: int| 0 <= k < n && positions@[k] == i;
                        assert(0 <= k < n + 1 && positions@[k] == i);
                    }
                    if i == p {
                        assert(positions@[n as int] == i);
                    }
                }
            }
            n += 1;
        }
        FixedBitSet { val }
    }

    /// The set of the positions at which `bits` holds `true`, all of which
    /// must lie below the width.
    pub fn from_bits(bits: &Vec<bool>) -> (r: FixedBitSet<T>)
        requires
            forall|k: int| 0 <= k < bits@.len() && bits@[k] ==> k < T::width(),
        ensures
            forall|i: nat| r@.contains(i) <==> i < bits@.len() && bits@[i as int],
    {
        let mut val = T::zero();
        let mut n: usize = 0;
        while n < bits.len()
            invariant
                n <= bits@.len(),
                forall|k: int| 0 <= k < bits@.len() && bits@[k] ==> k < T::width(),
                forall|i: nat| val.has_bit(i) <==> i < n && bits@[i as int],
            decreases bits@.len() - n,
        {
            if bits[n] {
                val = val.or(T::one().shl(n));
            }
            n += 1;
        }
        FixedBitSet { val }
    }
}

} // verus!
