//! Bit vectors. The storage is the `vob` crate's `Vob`; this module states what the operations
//! used by the grammar analyses do to the bits.

use vob::Vob;
use vstd::prelude::*;

verus! {

/// `vob::Vob`, the bit vector of the `vob` crate. Nothing is known of what is inside it but
/// what the functions of this module state.
#[verifier::external_type_specification]
#[verifier::external_body]
#[verifier::reject_recursive_types(T)]
pub struct ExVob<T>(Vob<T>);

/// The bits that a `Vob` holds, in index order.
pub uninterp spec fn vob_bits(v: Vob<usize>) -> Seq<bool>;

/// `Vob::from_elem`: a vector of `len` bits, each equal to `value`.
#[verifier::external_body]
pub(crate) fn vob_from_elem(value: bool, len: usize) -> (v: Vob<usize>)
    ensures
        vob_bits(v) == Seq::new(len as nat, |i: int| value),
{
    Vob::from_elem(value, len)
}

/// `Vob::index` within bounds: the bit at `index`.
#[verifier::external_body]
pub(crate) fn vob_get(v: &Vob<usize>, index: usize) -> (b: bool)
    requires
        index < vob_bits(*v).len(),
    ensures
        b == vob_bits(*v)[index as int],
{
    v[index]
}

/// `Vob::set` within bounds: the bit at `index` becomes `value`, the others stay; the result
/// says whether the bit changed.
#[verifier::external_body]
pub(crate) fn vob_set(v: &mut Vob<usize>, index: usize, value: bool) -> (changed: bool)
    requires
        index < vob_bits(*old(v)).len(),
    ensures
        vob_bits(*final(v)) == vob_bits(*old(v)).update(index as int, value),
        changed == (vob_bits(*old(v))[index as int] != value),
{
    v.set(index, value)
}

/// `Vob::or` on vectors of equal length: each bit becomes the disjunction of itself and the
/// corresponding bit of `other`; the result says whether any bit changed.
#[verifier::external_body]
pub(crate) fn vob_or(v: &mut Vob<usize>, other: &Vob<usize>) -> (changed: bool)
    requires
        vob_bits(*old(v)).len() == vob_bits(*other).len(),
    ensures
        vob_bits(*final(v)).len() == vob_bits(*old(v)).len(),
        forall|i: int|
            0 <= i < vob_bits(*old(v)).len() ==> #[trigger] vob_bits(*final(v))[i] == (vob_bits(
                *old(v),
            )[i] || vob_bits(*other)[i]),
        changed == (vob_bits(*final(v)) != vob_bits(*old(v))),
{
    v.or(other)
}

/// `Vob::eq`: whether two vectors hold the same bits.
#[verifier::external_body]
pub(crate) fn vob_eq(a: &Vob<usize>, b: &Vob<usize>) -> (same: bool)
    ensures
        same == (vob_bits(*a) == vob_bits(*b)),
{
    a == b
}

} // verus!
