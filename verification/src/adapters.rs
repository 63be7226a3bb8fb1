//! Thin entry points into the crates this library builds on and into the
//! parts of the standard library that it uses without a proof. Each body is
//! a single outside call; its contract is taken on trust from the documented
//! behaviour of what it calls.

use boolinator::Boolinator;
use crate::word::{bit32, bit64, ones32, ones64};
use itertools::Itertools;
use std::ops::{RangeFrom, RangeTo};
use vstd::prelude::*;

verus! {

/// `Boolinator::as_some` on `bool`: `Some(some)` when `cond` is true and
/// `None` when it is false.
#[verifier::external_body]
pub(crate) fn as_some<T>(cond: bool, some: T) -> (r: Option<T>)
    ensures
        r == (if cond {
            Some(some)
        } else {
            None::<T>
        }),
{
    cond.as_some(some)
}

/// `Bounded::max_value` of `num_traits` for `u64`: the largest `u64`.
#[verifier::external_body]
pub(crate) fn max_value_u64() -> (r: u64)
    ensures
        r == u64::MAX,
{
    num_traits::Bounded::max_value()
}

/// `Bounded::max_value` of `num_traits` for `u32`: the largest `u32`.
#[verifier::external_body]
pub(crate) fn max_value_u32() -> (r: u32)
    ensures
        r == u32::MAX,
{
    num_traits::Bounded::max_value()
}

/// `u64::count_ones` returns the number of ones in the binary representation
/// of the word: the number of positions at which it has a one bit.
#[verifier::external_body]
pub(crate) fn count_ones_u64(v: u64) -> (r: u32)
    ensures
        r == ones64(v).len(),
{
    v.count_ones()
}

/// `u32::count_ones` returns the number of ones in the binary representation
/// of the word: the number of positions at which it has a one bit.
#[verifier::external_body]
pub(crate) fn count_ones_u32(v: u32) -> (r: u32)
    ensures
        r == ones32(v).len(),
{
    v.count_ones()
}

/// `u64::reverse_bits` reverses the order of the bits: the lowest bit becomes
/// the highest, the second lowest the second highest, and so on.
#[verifier::external_body]
pub(crate) fn reverse_bits_u64(v: u64) -> (r: u64)
    ensures
        forall|i: u64| i < 64 ==> #[trigger] bit64(r, i) == bit64(v, (63 - i) as u64),
{
    v.reverse_bits()
}

/// `u32::reverse_bits` reverses the order of the bits: the lowest bit becomes
/// the highest, the second lowest the second highest, and so on.
#[verifier::external_body]
pub(crate) fn reverse_bits_u32(v: u32) -> (r: u32)
    ensures
        forall|i: u32| i < 32 ==> #[trigger] bit32(r, i) == bit32(v, (31 - i) as u32),
{
    v.reverse_bits()
}

/// `std::ops::RangeFrom`, the range `start..` without an end.
#[verifier::external_type_specification]
#[verifier::reject_recursive_types(Idx)]
pub struct ExRangeFrom<Idx>(RangeFrom<Idx>);

/// `std::ops::RangeTo`, the range `..end` without a start.
#[verifier::external_type_specification]
#[verifier::reject_recursive_types(Idx)]
pub struct ExRangeTo<Idx>(RangeTo<Idx>);

/// `Itertools::find_position` over the items of a slice: the first item that
/// the predicate accepts, with its position, or `None` when it accepts none.
/// The predicate is asked about the items in order and about none behind the
/// one it accepts.
#[verifier::external_body]
pub(crate) fn find_position<'a, T, P: Fn(&T) -> bool>(items: &'a [T], pred: P) -> (r: Option<
    (usize, &'a T),
>)
    requires
        forall|i: int| 0 <= i < items@.len() ==> call_requires(pred, (&#[trigger] items@[i],)),
    ensures
        match r {
            Some((k, x)) => {
                &&& k < items@.len()
                &&& *x == items@[k as int]
                &&& call_ensures(pred, (&items@[k as int],), true)
                &&& forall|j: int| 0 <= j < k ==> call_ensures(pred, (&#[trigger] items@[j],), false)
            },
            None => forall|j: int|
                0 <= j < items@.len() ==> call_ensures(pred, (&#[trigger] items@[j],), false),
        },
{
    items.iter().find_position(|x| pred(x))
}

/// The indices that a node keeps of its children, in a
/// `smallvec::SmallVec` that holds the first two inline.
#[verifier::external_body]
#[derive(Debug)]
pub struct Children {
    inner: smallvec::SmallVec<[usize; 2]>,
}

/// The indices that a list of children holds, in order.
pub uninterp spec fn items(v: Children) -> Seq<usize>;

impl Children {
    /// The indices in order.
    pub fn as_slice(&self) -> (s: &[usize])
        ensures
            s@ == items(*self),
    {
        children_slice(self)
    }

    /// The number of indices.
    pub fn len(&self) -> (n: usize)
        ensures
            n == items(*self).len(),
    {
        children_slice(self).len()
    }
}

/// `SmallVec::new`: a vector without items.
#[verifier::external_body]
pub(crate) fn children_new() -> (v: Children)
    ensures
        items(v) == Seq::<usize>::empty(),
{
    Children { inner: smallvec::SmallVec::new() }
}

/// `SmallVec::clone`: a vector with the same items.
#[verifier::external_body]
pub(crate) fn children_clone(v: &Children) -> (c: Children)
    ensures
        items(c) == items(*v),
{
    Children { inner: v.inner.clone() }
}

/// `SmallVec::push`: appends an item behind the others.
#[verifier::external_body]
pub(crate) fn children_push(v: &mut Children, item: usize)
    ensures
        items(*final(v)) == items(*old(v)).push(item),
{
    v.inner.push(item)
}

/// `SmallVec::as_slice`: the items as a slice.
#[verifier::external_body]
pub(crate) fn children_slice(v: &Children) -> (s: &[usize])
    ensures
        s@ == items(*v),
{
    v.inner.as_slice()
}

/// `SmallVec::remove`: takes the item at `index` out, hands it back and
/// moves the items behind it one place down. It panics at or beyond the
/// length.
#[verifier::external_body]
pub(crate) fn children_remove(v: &mut Children, index: usize) -> (item: usize)
    requires
        index < items(*old(v)).len(),
    ensures
        item == items(*old(v))[index as int],
        items(*final(v)) == items(*old(v)).remove(index as int),
{
    v.inner.remove(index)
}

} // verus!
