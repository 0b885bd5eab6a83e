//! Parse stacks that share their lower parts. The storage is the `cactus` crate's `Cactus`;
//! this module states what the operations used by the simulator and the search do to the
//! states that a stack holds.

use crate::statetable::StIdx;
use cactus::Cactus;
use vstd::prelude::*;

verus! {

/// `cactus::Cactus`, the parent pointer tree of the `cactus` crate: a stack whose lower part
/// other stacks may share. Nothing is known of what is inside it but what the functions of
/// this module, and of the module for lists of repairs, state.
#[verifier::external_type_specification]
#[verifier::external_body]
#[verifier::reject_recursive_types(T)]
pub struct ExCactus<T>(Cactus<T>);

/// The states that a stack holds, from its root to its top.
pub uninterp spec fn pstack_states(c: Cactus<StIdx>) -> Seq<StIdx>;

/// `Cactus::new`: the empty stack.
#[verifier::external_body]
pub(crate) fn pstack_new() -> (c: Cactus<StIdx>)
    ensures
        pstack_states(c) == Seq::<StIdx>::empty(),
{
    Cactus::new()
}

/// `Cactus::child`: the stack with `st` on top of `c`.
#[verifier::external_body]
pub(crate) fn pstack_child(c: &Cactus<StIdx>, st: StIdx) -> (child: Cactus<StIdx>)
    ensures
        pstack_states(child) == pstack_states(*c).push(st),
{
    c.child(st)
}

/// `Cactus::parent`: the stack below the top of `c`, or `None` where `c` is empty.
#[verifier::external_body]
pub(crate) fn pstack_parent(c: &Cactus<StIdx>) -> (parent: Option<Cactus<StIdx>>)
    ensures
        match parent {
            Some(p) => pstack_states(*c).len() > 0 && pstack_states(p) == pstack_states(*c).drop_last(),
            None => pstack_states(*c).len() == 0,
        },
{
    c.parent()
}

/// `Cactus::val`: the state on top of `c`, or `None` where `c` is empty.
#[verifier::external_body]
pub(crate) fn pstack_val(c: &Cactus<StIdx>) -> (top: Option<StIdx>)
    ensures
        match top {
            Some(st) => pstack_states(*c).len() > 0 && st == pstack_states(*c).last(),
            None => pstack_states(*c).len() == 0,
        },
{
    c.val().copied()
}

/// `Cactus::eq`: whether two stacks hold the same states in the same order.
#[verifier::external_body]
pub(crate) fn pstack_eq(a: &Cactus<StIdx>, b: &Cactus<StIdx>) -> (same: bool)
    ensures
        same == (pstack_states(*a) == pstack_states(*b)),
{
    a == b
}

/// `Cactus::clone`: another handle on the same stack.
#[verifier::external_body]
pub(crate) fn pstack_clone(c: &Cactus<StIdx>) -> (copy: Cactus<StIdx>)
    ensures
        pstack_states(copy) == pstack_states(*c),
{
    c.clone()
}

} // verus!
