//! Lists of repairs that share their older parts, and the lists that were merged into an
//! entry. The storage is the `cactus` crate's `Cactus`; this module states what the operations
//! used by the search do to the entries that a list holds.

use crate::cpctplus::{RepairEntry, RepairMerge};
use cactus::Cactus;
use vstd::prelude::*;

verus! {

/// The entries that a list holds, from the oldest to the newest.
pub uninterp spec fn rlist_entries(c: Cactus<RepairMerge>) -> Seq<RepairEntry>;

/// `Cactus::new`: the empty list.
#[verifier::external_body]
pub(crate) fn rlist_new() -> (c: Cactus<RepairMerge>)
    ensures
        rlist_entries(c) == Seq::<RepairEntry>::empty(),
{
    Cactus::new()
}

/// `Cactus::child`: the list with `entry` behind the entries of `c`.
#[verifier::external_body]
pub(crate) fn rlist_child(c: &Cactus<RepairMerge>, entry: RepairMerge) -> (child: Cactus<RepairMerge>)
    ensures
        rlist_entries(child) == rlist_entries(*c).push(entry@),
{
    c.child(entry)
}

/// `Cactus::parent`: the list without the newest entry of `c`, or `None` where `c` is empty.
#[verifier::external_body]
pub(crate) fn rlist_parent(c: &Cactus<RepairMerge>) -> (parent: Option<Cactus<RepairMerge>>)
    ensures
        match parent {
            Some(p) => rlist_entries(*c).len() > 0 && rlist_entries(p) == rlist_entries(*c).drop_last(),
            None => rlist_entries(*c).len() == 0,
        },
{
    c.parent()
}

/// `Cactus::val`: the newest entry of `c`, or `None` where `c` is empty.
#[verifier::external_body]
pub(crate) fn rlist_val(c: &Cactus<RepairMerge>) -> (newest: Option<&RepairMerge>)
    ensures
        match newest {
            Some(e) => rlist_entries(*c).len() > 0 && e@ == rlist_entries(*c).last(),
            None => rlist_entries(*c).len() == 0,
        },
{
    c.val()
}

/// `Cactus::clone`: another handle on the same list.
#[verifier::external_body]
pub(crate) fn rlist_clone(c: &Cactus<RepairMerge>) -> (copy: Cactus<RepairMerge>)
    ensures
        rlist_entries(copy) == rlist_entries(*c),
{
    c.clone()
}

/// The lists of repairs that were merged into an entry of another list: a `Cactus` whose
/// values are lists. A list holds entries and an entry holds such lists, so the type stands
/// here without its contents, and `alt_lists` names them.
#[derive(Debug)]
#[verifier::external_body]
pub struct Alternates {
    lists: Cactus<Cactus<RepairMerge>>,
}

/// The entries of each list that was merged in, from the first merged to the last.
pub uninterp spec fn alt_lists(a: Alternates) -> Seq<Seq<RepairEntry>>;

/// `Cactus::new`: no lists.
#[verifier::external_body]
pub(crate) fn alts_new() -> (a: Alternates)
    ensures
        alt_lists(a) == Seq::<Seq<RepairEntry>>::empty(),
{
    Alternates { lists: Cactus::new() }
}

/// `Cactus::child`: the lists of `a` and, behind them, `list`.
#[verifier::external_body]
pub(crate) fn alts_child(a: &Alternates, list: Cactus<RepairMerge>) -> (child: Alternates)
    ensures
        alt_lists(child) == alt_lists(*a).push(rlist_entries(list)),
{
    Alternates { lists: a.lists.child(list) }
}

/// `Cactus::parent`: the lists of `a` without the one merged last, or `None` where `a` holds
/// none.
#[verifier::external_body]
pub(crate) fn alts_parent(a: &Alternates) -> (parent: Option<Alternates>)
    ensures
        match parent {
            Some(p) => alt_lists(*a).len() > 0 && alt_lists(p) == alt_lists(*a).drop_last(),
            None => alt_lists(*a).len() == 0,
        },
{
    a.lists.parent().map(|lists| Alternates { lists })
}

/// `Cactus::val`: the list merged last into `a`, or `None` where `a` holds none.
#[verifier::external_body]
pub(crate) fn alts_val(a: &Alternates) -> (newest: Option<&Cactus<RepairMerge>>)
    ensures
        match newest {
            Some(c) => alt_lists(*a).len() > 0 && rlist_entries(*c) == alt_lists(*a).last(),
            None => alt_lists(*a).len() == 0,
        },
{
    a.lists.val()
}

impl Clone for Alternates {
    /// `Cactus::clone`: another handle on the same lists.
    #[verifier::external_body]
    fn clone(&self) -> (copy: Alternates)
        ensures
            alt_lists(copy) == alt_lists(*self),
    {
        Alternates { lists: self.lists.clone() }
    }
}

} // verus!
