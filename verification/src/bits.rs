//! The bit vector under the standard filter: `bit_vec::BitVec`, with what the
//! filter relies on stated as contracts. Nothing in this file is proved; each
//! contract restates what the `bit_vec` crate documents and does.

use bit_vec::BitVec;
use vstd::prelude::*;

verus! {

/// `bit_vec::BitVec`, carried as it is; what it holds is spoken of through
/// `bit_vec_contents`.
#[verifier::external_type_specification]
#[verifier::external_body]
#[verifier::reject_recursive_types(B)]
pub struct ExBitVec<B>(BitVec<B>);

/// The bits a `BitVec` holds, by index.
pub uninterp spec fn bit_vec_contents(v: BitVec) -> Seq<bool>;

/// `BitVec::from_elem` with `false`: a vector of `nbits` bits, none set.
#[verifier::external_body]
pub(crate) fn bits_new(nbits: usize) -> (v: BitVec)
    ensures
        bit_vec_contents(v) == Seq::new(nbits as nat, |i: int| false),
{
    BitVec::from_elem(nbits, false)
}

/// `BitVec::len`: the number of bits held.
#[verifier::external_body]
pub(crate) fn bits_len(v: &BitVec) -> (n: usize)
    ensures
        n == bit_vec_contents(*v).len(),
{
    v.len()
}

/// `BitVec::get`: the bit at index `i`, or `None` when `i` is not below the
/// length.
#[verifier::external_body]
pub(crate) fn bits_get(v: &BitVec, i: usize) -> (bit: Option<bool>)
    ensures
        bit == (if i < bit_vec_contents(*v).len() {
            Some(bit_vec_contents(*v)[i as int])
        } else {
            None
        }),
{
    v.get(i)
}

/// `BitVec::set`: stores `x` at index `i` and changes no other bit. The crate
/// panics when `i` is not below the length.
#[verifier::external_body]
pub(crate) fn bits_set(v: &mut BitVec, i: usize, x: bool)
    requires
        i < bit_vec_contents(*old(v)).len(),
    ensures
        bit_vec_contents(*final(v)) == bit_vec_contents(*old(v)).update(i as int, x),
{
    v.set(i, x)
}

/// `BitVec::clear`: unsets every bit; the length stays.
#[verifier::external_body]
pub(crate) fn bits_clear(v: &mut BitVec)
    ensures
        bit_vec_contents(*final(v)) == Seq::new(
            bit_vec_contents(*old(v)).len(),
            |i: int| false,
        ),
{
    v.clear()
}

/// `BitVec::or`: each bit becomes the disjunction of itself and the bit of
/// `other` at the same index; the result tells whether any bit changed. The
/// crate panics when the lengths differ.
#[verifier::external_body]
pub(crate) fn bits_or(v: &mut BitVec, other: &BitVec) -> (changed: bool)
    requires
        bit_vec_contents(*old(v)).len() == bit_vec_contents(*other).len(),
    ensures
        bit_vec_contents(*final(v)) == Seq::new(
            bit_vec_contents(*old(v)).len(),
            |i: int| bit_vec_contents(*old(v))[i] || bit_vec_contents(*other)[i],
        ),
        changed == (bit_vec_contents(*final(v)) != bit_vec_contents(*old(v))),
{
    v.or(other)
}

/// `BitVec::and`: each bit becomes the conjunction of itself and the bit of
/// `other` at the same index; the result tells whether any bit changed. The
/// crate panics when the lengths differ.
#[verifier::external_body]
pub(crate) fn bits_and(v: &mut BitVec, other: &BitVec) -> (changed: bool)
    requires
        bit_vec_contents(*old(v)).len() == bit_vec_contents(*other).len(),
    ensures
        bit_vec_contents(*final(v)) == Seq::new(
            bit_vec_contents(*old(v)).len(),
            |i: int| bit_vec_contents(*old(v))[i] && bit_vec_contents(*other)[i],
        ),
        changed == (bit_vec_contents(*final(v)) != bit_vec_contents(*old(v))),
{
    v.and(other)
}

} // verus!
