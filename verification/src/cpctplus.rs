//! The CPCT+ recoverer: when the parser meets a token that it cannot act on, a search for the
//! cheapest sequences of insertions, deletions and shifts after which parsing can go on.

use crate::astar::{all_ok, dijkstra, node_views, searched};
use crate::grammar::TIdx;
use crate::lex::Lexeme;
use crate::mf::{
    apply_repairs, copy_vec, holds, in_pool, lift, rank_cnds, simplified_from, simplify_repairs,
};
use crate::parser::{trees_of, Node, Parser, ParserModel};
use crate::pstack::{pstack_clone, pstack_eq, pstack_states, pstack_val};
use crate::replay::{
    consumed, denotes, entry_shifts, last_repair, lemma_apply_laidx, lemma_candidate,
    lemma_consumed_take, lemma_leads_consumed, lemma_repair_of, lemma_start_ok, merged,
    no_insert_behind_delete, passes, without_trailing_shifts, yields, Config, NodeView,
};
use crate::rlist::{
    alt_lists, alts_child, alts_new, alts_parent, alts_val, rlist_child, rlist_clone, rlist_entries,
    rlist_new, rlist_parent, rlist_val, Alternates,
};
use crate::statetable::{Action, StIdx};
use cactus::Cactus;
use std::time::Instant;
use vstd::prelude::*;
use vstd::std_specs::cmp::PartialEqSpecImpl;

verus! {

/// How many input tokens a repair sequence must let the parser shift in a row to count as
/// successful without reaching the end of the input.
pub const PARSE_AT_LEAST: usize = 3;

/// The cost above which a node gets no neighbours that cost more than it: below it, the
/// cost of a neighbour fits in 16 bits whatever token is inserted or deleted.
pub const COST_CEILING: u16 = 65280;

/// One step of a repair sequence.
#[derive(Clone, Copy, Debug, Eq, Hash, PartialEq, Structural)]
pub enum Repair {
    /// Insert the token before the lookahead.
    InsertTerm(TIdx),
    /// Delete the lookahead.
    Delete,
    /// Shift the lookahead.
    Shift,
}

/// One step of a repair sequence as the parser reports it.
#[derive(Clone, Copy, Debug, Eq, Hash, PartialEq, Structural)]
pub enum ParseRepair {
    /// Insert the token.
    Insert(TIdx),
    /// Delete the lexeme.
    Delete(Lexeme),
    /// Shift the lexeme.
    Shift(Lexeme),
}

/// One entry of a search node's list of repairs.
#[derive(Clone, Debug)]
pub enum RepairMerge {
    /// A repair.
    Repair(Repair),
    /// A repair, and the lists of repairs, complete up to this entry, of the nodes that were
    /// merged into the node that this entry belonged to.
    Merge(Repair, Alternates),
    /// The start of every list.
    Terminator,
}

/// The mathematical content of an entry.
pub enum RepairEntry {
    Repair(Repair),
    Merge(Repair, Seq<Seq<RepairEntry>>),
    Terminator,
}

impl View for RepairMerge {
    type V = RepairEntry;

    open spec fn view(&self) -> RepairEntry {
        match self {
            RepairMerge::Repair(r) => RepairEntry::Repair(*r),
            RepairMerge::Merge(r, alts) => RepairEntry::Merge(*r, alt_lists(*alts)),
            RepairMerge::Terminator => RepairEntry::Terminator,
        }
    }
}

impl RepairEntry {
    /// The repair of this entry, where it has one.
    pub open spec fn repair(self) -> Option<Repair> {
        match self {
            RepairEntry::Repair(r) => Some(r),
            RepairEntry::Merge(r, _) => Some(r),
            RepairEntry::Terminator => None,
        }
    }
}

/// A node of the search: a configuration of the parser, the repairs that led to it, and
/// their cost.
pub struct PathFNode {
    pub pstack: Cactus<StIdx>,
    pub laidx: usize,
    pub repairs: Cactus<RepairMerge>,
    pub cf: u16,
}

impl View for PathFNode {
    type V = NodeView;

    open spec fn view(&self) -> NodeView {
        NodeView {
            stack: pstack_states(self.pstack),
            laidx: self.laidx as int,
            entries: rlist_entries(self.repairs),
            cf: self.cf as int,
        }
    }
}

/// Whether the repairs of two lists end with the same number of shifts.
fn same_trailing_shifts(a: &Cactus<RepairMerge>, b: &Cactus<RepairMerge>) -> (same: bool)
    ensures
        same == (entry_shifts(rlist_entries(*a)) == entry_shifts(rlist_entries(*b))),
{
    let mut x = rlist_clone(a);
    let mut y = rlist_clone(b);
    loop
        invariant
            (entry_shifts(rlist_entries(*a)) == entry_shifts(rlist_entries(*b))) == (entry_shifts(
                rlist_entries(x),
            ) == entry_shifts(rlist_entries(y))),
        decreases rlist_entries(x).len(),
    {
        let x_shift = is_shift_entry(rlist_val(&x));
        let y_shift = is_shift_entry(rlist_val(&y));
        if !x_shift || !y_shift {
            return !x_shift && !y_shift;
        }
        let xp = rlist_parent(&x);
        let yp = rlist_parent(&y);
        match (xp, yp) {
            (Some(xn), Some(yn)) => {
                x = xn;
                y = yn;
            },
            _ => {
                return true;
            },
        }
    }
}

/// Whether an entry is there and is a shift.
fn is_shift_entry(e: Option<&RepairMerge>) -> (b: bool)
    ensures
        b == match e {
            Some(rm) => rm@.repair() == Some(Repair::Shift),
            None => false,
        },
{
    match e {
        Some(RepairMerge::Repair(Repair::Shift)) => true,
        Some(RepairMerge::Merge(Repair::Shift, _)) => true,
        _ => false,
    }
}

impl PathFNode {
    /// The newest repair of this node, where it has one.
    pub fn last_repair(&self) -> (r: Option<Repair>)
        ensures
            r == last_repair(self@.entries),
    {
        match rlist_val(&self.repairs) {
            Some(RepairMerge::Repair(r)) => Some(*r),
            Some(RepairMerge::Merge(x, _)) => Some(*x),
            _ => None,
        }
    }
}

impl PartialEq for PathFNode {
    /// Whether two nodes can be merged. This asks less than that they are the same: they must
    /// have the same stack and position, their repairs must end with the same number of
    /// shifts, and if the repairs of one end with a deletion, so must those of the other.
    fn eq(&self, other: &PathFNode) -> (same: bool) {
        if self.laidx != other.laidx || !pstack_eq(&self.pstack, &other.pstack) {
            return false;
        }
        match (self.last_repair(), other.last_repair()) {
            (Some(Repair::Delete), Some(Repair::Delete)) => (),
            (Some(Repair::Delete), _) | (_, Some(Repair::Delete)) => {
                return false;
            },
            (_, _) => (),
        }
        same_trailing_shifts(&self.repairs, &other.repairs)
    }
}

impl PartialEqSpecImpl for PathFNode {
    open spec fn obeys_eq_spec() -> bool {
        true
    }

    open spec fn eq_spec(&self, other: &PathFNode) -> bool {
        self@.compatible(other@)
    }
}

/// Do `repairs` end with enough shifts for their node to be a success?
pub fn ends_with_parse_at_least_shifts(repairs: &Cactus<RepairMerge>) -> (enough: bool)
    ensures
        enough == (entry_shifts(rlist_entries(*repairs)) >= PARSE_AT_LEAST),
{
    let mut cur = rlist_clone(repairs);
    let mut shfts: usize = 0;
    while shfts < PARSE_AT_LEAST
        invariant
            shfts <= PARSE_AT_LEAST,
            entry_shifts(rlist_entries(*repairs)) == entry_shifts(rlist_entries(cur)) + shfts,
        decreases PARSE_AT_LEAST - shfts,
    {
        if !is_shift_entry(rlist_val(&cur)) {
            return false;
        }
        match rlist_parent(&cur) {
            Some(p) => {
                cur = p;
            },
            None => {
                return false;
            },
        }
        shfts += 1;
    }
    true
}


/// The CPCT+ recoverer for a parser.
pub struct CPCTPlus<'a> {
    parser: &'a Parser<'a>,
}

/// The recoverer for `parser`.
pub fn recoverer<'a>(parser: &'a Parser<'a>) -> (r: CPCTPlus<'a>)
    ensures
        r.model() == parser@,
{
    CPCTPlus { parser }
}

/// `grown` holds the neighbours of `before`, in their order, and more behind them.
pub open spec fn extends(before: Seq<(u16, PathFNode)>, grown: Seq<(u16, PathFNode)>) -> bool {
    before.len() <= grown.len() && forall|k: int| 0 <= k < before.len() ==> #[trigger] grown[k] == before[k]
}

impl<'a> CPCTPlus<'a> {
    /// The parser that this recoverer works for.
    pub closed spec fn model(&self) -> ParserModel {
        self.parser@
    }

    /// Adds to `nbrs` the neighbours of `n` that inserting a token leads to: one for each
    /// token, except the end-of-input token, on which the state on top of the stack acts and
    /// on which a run of the simulator changes the stack. The cost of each must fit in 16
    /// bits.
    pub fn insert(&self, n: &PathFNode, nbrs: &mut Vec<(u16, PathFNode)>)
        requires
            n@.laidx <= self.model().lexemes.len(),
            forall|t: TIdx| #[trigger]
                n@.can_insert(self.model(), t) ==> n@.cf + self.model().token_cost(t) <= u16::MAX,
        ensures
            extends(old(nbrs)@, final(nbrs)@),
            forall|k: int, l: int|
                old(nbrs)@.len() <= k < l < final(nbrs)@.len() ==> (#[trigger] final(nbrs)@[k]).1@.entries != (
                #[trigger] final(nbrs)@[l]).1@.entries,
            forall|k: int|
                old(nbrs)@.len() <= k < final(nbrs)@.len() ==> (#[trigger] final(nbrs)@[k]).0
                    == final(nbrs)@[k].1.cf && exists|t: TIdx|
                    n@.can_insert(self.model(), t) && final(nbrs)@[k].1@ == #[trigger] n@.insert_nbr(
                        self.model(),
                        t,
                    ),
            forall|t: TIdx|
                n@.can_insert(self.model(), t) ==> exists|k: int|
                    old(nbrs)@.len() <= k < final(nbrs)@.len() && (#[trigger] final(nbrs)@[k]).1@
                        == n@.insert_nbr(self.model(), t),
    {
        let ghost m = self.parser@;
        let laidx = n.laidx;
        let top = match pstack_val(&n.pstack) {
            Some(st) => st,
            None => {
                return ;
            },
        };
        let grm = self.parser.grm();
        let eof = grm.eof_token_idx();
        let ts = self.parser.stable().state_actions(top);
        let mut i: usize = 0;
        while i < ts.len()
            invariant
                m == self.parser@,
                m == self.model(),
                laidx == n.laidx,
                laidx <= m.lexemes.len(),
                m.lexemes.len() < usize::MAX,
                eof == m.grm.eof_token,
                n@.stack.len() > 0,
                top == n@.stack.last(),
                m.lr.is_state_actions(top, ts@),
                i <= ts@.len(),
                extends(old(nbrs)@, nbrs@),
                forall|t: TIdx| #[trigger] n@.can_insert(m, t) ==> n@.cf + m.token_cost(t) <= u16::MAX,
                forall|k: int|
                    old(nbrs)@.len() <= k < nbrs@.len() ==> exists|j: int|
                        0 <= j < i && (#[trigger] nbrs@[k]).1@ == n@.insert_nbr(m, #[trigger] ts@[j]),
                forall|k: int, l: int|
                    old(nbrs)@.len() <= k < l < nbrs@.len() ==> (#[trigger] nbrs@[k]).1@.entries != (
                    #[trigger] nbrs@[l]).1@.entries,
                forall|k: int|
                    old(nbrs)@.len() <= k < nbrs@.len() ==> (#[trigger] nbrs@[k]).0 == nbrs@[k].1.cf
                        && exists|t: TIdx|
                        n@.can_insert(m, t) && nbrs@[k].1@ == #[trigger] n@.insert_nbr(m, t),
                forall|j: int|
                    0 <= j < i && n@.can_insert(m, #[trigger] ts@[j]) ==> exists|k: int|
                        old(nbrs)@.len() <= k < nbrs@.len() && (#[trigger] nbrs@[k]).1@ == n@.insert_nbr(
                            m,
                            ts@[j],
                        ),
            decreases ts@.len() - i,
        {
            let tidx = ts[i];
            let ghost before = nbrs@;
            if tidx != eof {
                let next_lexeme = self.parser.next_lexeme(laidx);
                let new_lexeme = Lexeme::new(tidx, next_lexeme.start(), 0);
                let (new_laidx, n_pstack) = self.parser.lr_cactus(
                    Some(new_lexeme),
                    laidx,
                    laidx + 1,
                    pstack_clone(&n.pstack),
                );
                if !pstack_eq(&n.pstack, &n_pstack) {
                    proof {
                        assert(ts@.contains(tidx));
                        assert(n@.can_insert(m, tidx));
                    }
                    let cf = n.cf + self.parser.token_cost(tidx) as u16;
                    let nn = PathFNode {
                        pstack: n_pstack,
                        laidx: n.laidx,
                        repairs: rlist_child(&n.repairs, RepairMerge::Repair(Repair::InsertTerm(tidx))),
                        cf,
                    };
                    proof {
                        assert(nn@ == n@.insert_nbr(m, tidx));
                    }
                    nbrs.push((cf, nn));
                }
            }
            proof {
                assert forall|k: int| old(nbrs)@.len() <= k < nbrs@.len() implies exists|j: int|
                    0 <= j < i + 1 && (#[trigger] nbrs@[k]).1@ == n@.insert_nbr(m, #[trigger] ts@[j]) by {
                    if k < before.len() {
                        assert(nbrs@[k] == before[k]);
                        let j = choose|j: int|
                            0 <= j < i && (#[trigger] before[k]).1@ == n@.insert_nbr(m, #[trigger] ts@[j]);
                        assert(nbrs@[k].1@ == n@.insert_nbr(m, ts@[j]));
                    } else {
                        assert(nbrs@[k].1@ == n@.insert_nbr(m, ts@[i as int]));
                    }
                }
                assert forall|k: int, l: int| old(nbrs)@.len() <= k < l < nbrs@.len() implies (
                #[trigger] nbrs@[k]).1@.entries != (#[trigger] nbrs@[l]).1@.entries by {
                    assert(nbrs@[k] == before[k]);
                    if l < before.len() {
                        assert(nbrs@[l] == before[l]);
                    } else {
                        let j = choose|j: int|
                            0 <= j < i && (#[trigger] before[k]).1@ == n@.insert_nbr(m, #[trigger] ts@[j]);
                        assert(ts@[j] < ts@[i as int]);
                        assert(before[k].1@.entries.last() == RepairEntry::Repair(Repair::InsertTerm(ts@[j])));
                        assert(nbrs@[l].1@.entries.last() == RepairEntry::Repair(Repair::InsertTerm(tidx)));
                    }
                }
                assert forall|k: int| old(nbrs)@.len() <= k < nbrs@.len() implies (#[trigger] nbrs@[k]).0
                    == nbrs@[k].1.cf && exists|t: TIdx|
                    n@.can_insert(m, t) && nbrs@[k].1@ == #[trigger] n@.insert_nbr(m, t) by {
                    if k < before.len() {
                        assert(nbrs@[k] == before[k]);
                    }
                }
                assert forall|j: int| 0 <= j < i + 1 && n@.can_insert(m, #[trigger] ts@[j]) implies exists|
                    k: int,
                |
                    old(nbrs)@.len() <= k < nbrs@.len() && (#[trigger] nbrs@[k]).1@ == n@.insert_nbr(
                        m,
                        ts@[j],
                    ) by {
                    if j < i {
                        let k = choose|k: int|
                            old(nbrs)@.len() <= k < before.len() && (#[trigger] before[k]).1@
                                == n@.insert_nbr(m, ts@[j]);
                        assert(nbrs@[k] == before[k]);
                    } else {
                        assert(nbrs@.len() == before.len() + 1);
                        assert(nbrs@[before.len() as int].1@ == n@.insert_nbr(m, tidx));
                    }
                }
            }
            i += 1;
        }
        proof {
            assert forall|t: TIdx| n@.can_insert(m, t) implies exists|k: int|
                old(nbrs)@.len() <= k < nbrs@.len() && (#[trigger] nbrs@[k]).1@ == n@.insert_nbr(m, t) by {
                assert(ts@.contains(t));
                let j = choose|j: int| 0 <= j < ts@.len() && ts@[j] == t;
                assert(n@.can_insert(m, ts@[j]));
            }
        }
    }

    /// Adds to `nbrs` the neighbour of `n` that deleting the lookahead leads to, unless the
    /// input has ended. The cost of the neighbour must fit in 16 bits.
    pub fn delete(&self, n: &PathFNode, nbrs: &mut Vec<(u16, PathFNode)>)
        requires
            n@.laidx <= self.model().lexemes.len(),
            n@.can_delete(self.model()) ==> n@.cf + self.model().token_cost(
                self.model().next_tidx(n@.laidx),
            ) <= u16::MAX,
        ensures
            n@.can_delete(self.model()) ==> final(nbrs)@.len() == old(nbrs)@.len() + 1 && final(nbrs)@.last().1@
                == n@.delete_nbr(self.model()) && final(nbrs)@.last().0 == final(nbrs)@.last().1.cf,
            !n@.can_delete(self.model()) ==> final(nbrs)@ == old(nbrs)@,
            extends(old(nbrs)@, final(nbrs)@),
    {
        if n.laidx == self.parser.lexemes_len() {
            return ;
        }
        let la_tidx = self.parser.next_tidx(n.laidx);
        let cf = n.cf + self.parser.token_cost(la_tidx) as u16;
        let nn = PathFNode {
            pstack: pstack_clone(&n.pstack),
            laidx: n.laidx + 1,
            repairs: rlist_child(&n.repairs, RepairMerge::Repair(Repair::Delete)),
            cf,
        };
        nbrs.push((cf, nn));
    }

    /// Adds to `nbrs` the neighbour of `n` that one run of the simulator on the input leads
    /// to, if the run changes the stack. Only one token is shifted at a time, so that no
    /// repair sequence of minimal cost is missed.
    pub fn shift(&self, n: &PathFNode, nbrs: &mut Vec<(u16, PathFNode)>)
        requires
            n@.laidx <= self.model().lexemes.len(),
        ensures
            n@.can_shift(self.model()) ==> final(nbrs)@.len() == old(nbrs)@.len() + 1 && final(nbrs)@.last().1@
                == n@.shift_nbr(self.model()) && final(nbrs)@.last().0 == final(nbrs)@.last().1.cf,
            !n@.can_shift(self.model()) ==> final(nbrs)@ == old(nbrs)@,
            extends(old(nbrs)@, final(nbrs)@),
    {
        let laidx = n.laidx;
        let llen = self.parser.lexemes_len();
        let (new_laidx, n_pstack) = self.parser.lr_cactus(None, laidx, laidx + 1, pstack_clone(&n.pstack));
        if !pstack_eq(&n.pstack, &n_pstack) {
            let n_repairs = if new_laidx > laidx {
                rlist_child(&n.repairs, RepairMerge::Repair(Repair::Shift))
            } else {
                rlist_clone(&n.repairs)
            };
            let nn = PathFNode { pstack: n_pstack, laidx: new_laidx, repairs: n_repairs, cf: n.cf };
            nbrs.push((nn.cf, nn));
        }
    }
}


/// The sequences that a vector of vectors holds include `s`.
pub open spec fn holds_seq(out: Seq<Vec<Repair>>, s: Seq<Repair>) -> bool {
    exists|i: int| 0 <= i < out.len() && (#[trigger] out[i])@ == s
}

/// The sequences that a vector of vectors holds, in their order.
pub open spec fn seqs(out: Seq<Vec<Repair>>) -> Seq<Seq<Repair>> {
    Seq::new(out.len(), |k: int| out[k]@)
}

/// Each of the sequences `below` with the repair `r` behind it; the sequence of `r` alone
/// where there is none.
pub open spec fn extended(below: Seq<Seq<Repair>>, r: Repair) -> Seq<Seq<Repair>> {
    if below.len() == 0 {
        seq![seq![r]]
    } else {
        Seq::new(below.len(), |k: int| below[k].push(r))
    }
}

/// The repair sequences that a list of entries yields, in the order of the walk: the
/// sequences of the list before its newest entry, each with the entry's repair behind it,
/// and then, for a merged entry, the sequences of the lists merged into it, those of the list
/// merged last first. A list without a repair yields none.
pub open spec fn sequences(entries: Seq<RepairEntry>) -> Seq<Seq<Repair>>
    decreases entries,
{
    if entries.len() == 0 {
        Seq::empty()
    } else {
        match entries.last() {
            RepairEntry::Terminator => Seq::empty(),
            RepairEntry::Repair(r) => extended(sequences(entries.drop_last()), r),
            RepairEntry::Merge(r, alts) => extended(sequences(entries.drop_last()), r) + alt_sequences(alts),
        }
    }
}

/// The repair sequences that the lists `alts` yield, those of the last list first.
pub open spec fn alt_sequences(alts: Seq<Seq<RepairEntry>>) -> Seq<Seq<Repair>>
    decreases alts,
{
    if alts.len() == 0 {
        Seq::empty()
    } else {
        sequences(alts.last()) + alt_sequences(alts.drop_last())
    }
}

/// The repair sequences that the list `rm` yields, each once for each way in which the list
/// yields it, in the order of the walk: see [`sequences`].
pub fn traverse(rm: &Cactus<RepairMerge>) -> (out: Vec<Vec<Repair>>)
    ensures
        seqs(out@) == sequences(rlist_entries(*rm)),
        forall|s: Seq<Repair>| holds_seq(out@, s) <==> yields(rlist_entries(*rm), s),
        last_repair(rlist_entries(*rm)) is Some ==> out@.len() > 0,
    decreases rlist_entries(*rm),
{
    let ghost entries = rlist_entries(*rm);
    let mut out: Vec<Vec<Repair>> = Vec::new();
    let (r, alts): (Repair, Option<&Alternates>) = match rlist_val(rm) {
        Some(RepairMerge::Repair(r)) => (*r, None),
        Some(RepairMerge::Merge(r, vc)) => (*r, Some(vc)),
        _ => {
            assert(seqs(out@) =~= sequences(entries));
            return out;
        },
    };
    let parent = match rlist_parent(rm) {
        Some(p) => p,
        None => {
            return out;
        },
    };
    let ghost below = entries.drop_last();
    let parents = traverse(&parent);
    if parents.len() == 0 {
        let mut one: Vec<Repair> = Vec::new();
        one.push(r);
        out.push(one);
        proof {
            assert(out@[0]@ =~= seq![r]);
        }
    } else {
        let mut i: usize = 0;
        while i < parents.len()
            invariant
                i <= parents@.len(),
                out@.len() == i,
                forall|k: int| 0 <= k < i ==> (#[trigger] out@[k])@ == parents@[k]@.push(r),
            decreases parents@.len() - i,
        {
            let mut pc = copy_vec(&parents[i]);
            pc.push(r);
            out.push(pc);
            i += 1;
        }
    }
    let ghost first = out@;
    proof {
        assert(seqs(first) =~= extended(sequences(below), r)) by {
            assert(seqs(parents@).len() == parents@.len());
            assert forall|k: int| 0 <= k < parents@.len() implies sequences(below)[k] == parents@[k]@ by {
                assert(seqs(parents@)[k] == parents@[k]@);
            }
        }
        // The sequences so far are those of the list below, each with the repair behind it.
        assert forall|s: Seq<Repair>| holds_seq(first, s) <==> s.len() > 0 && s.last() == r && denotes(
            below,
            s.drop_last(),
        ) by {
            if holds_seq(first, s) {
                let k = choose|k: int| 0 <= k < first.len() && (#[trigger] first[k])@ == s;
                if parents@.len() == 0 {
                    assert(s.drop_last() =~= Seq::<Repair>::empty());
                    assert(!holds_seq(parents@, s.drop_last()));
                    lemma_denotes_without_repair(below, s.drop_last());
                } else {
                    assert(s.drop_last() =~= parents@[k]@);
                    assert(holds_seq(parents@, s.drop_last()));
                }
            }
            if s.len() > 0 && s.last() == r && denotes(below, s.drop_last()) {
                if parents@.len() == 0 {
                    assert(!holds_seq(parents@, s.drop_last()));
                    lemma_denotes_without_repair(below, s.drop_last());
                    assert(s =~= seq![r]);
                    assert(first[0]@ == s);
                } else {
                    assert(last_repair(below) is Some) by {
                        if last_repair(below) is None {
                            assert(!yields(below, parents@[0]@));
                            assert(holds_seq(parents@, parents@[0]@));
                        }
                    }
                    assert(holds_seq(parents@, s.drop_last()));
                    let k = choose|k: int| 0 <= k < parents@.len() && (#[trigger] parents@[k])@ == s.drop_last();
                    assert(first[k]@ =~= s);
                }
            }
        }
    }
    match alts {
        Some(vc) => {
            let ghost all = alt_lists(*vc);
            let mut cur = vc.clone();
            loop
                invariant
                    entries == rlist_entries(*rm),
                    entries.len() > 0,
                    entries.last() == RepairEntry::Merge(r, all),
                    alt_lists(cur).len() <= all.len(),
                    alt_lists(cur) == all.take(alt_lists(cur).len() as int),
                    out@.len() >= first.len(),
                    first.len() > 0,
                    seqs(out@) + alt_sequences(alt_lists(cur)) == seqs(first) + alt_sequences(all),
                    forall|s: Seq<Repair>|
                        holds_seq(first, s) <==> s.len() > 0 && s.last() == r && denotes(
                            entries.drop_last(),
                            s.drop_last(),
                        ),
                    forall|s: Seq<Repair>|
                        holds_seq(out@, s) <==> holds_seq(first, s) || exists|k: int|
                            alt_lists(cur).len() <= k < all.len() && yields(#[trigger] all[k], s),
                ensures
                    alt_lists(cur).len() == 0,
                decreases alt_lists(cur).len(),
            {
                let ghost n = alt_lists(cur).len() as int;
                let ghost before = out@;
                match alts_val(&cur) {
                    Some(c) => {
                        proof {
                            assert(rlist_entries(*c) == all[n - 1]);
                            assert(decreases_to!(entries => entries[entries.len() - 1]));
                            assert(decreases_to!(entries[entries.len() - 1] => entries[entries.len() - 1]->Merge_1));
                            assert(decreases_to!(all => all[n - 1]));
                        }
                        let sub = traverse(c);
                        let ghost rest = alt_sequences(alt_lists(cur));
                        let mut j: usize = 0;
                        while j < sub.len()
                            invariant
                                j <= sub@.len(),
                                out@.len() == before.len() + j,
                                forall|k: int| 0 <= k < before.len() ==> #[trigger] out@[k] == before[k],
                                forall|k: int| 0 <= k < j ==> (#[trigger] out@[before.len() + k])@ == sub@[k]@,
                            decreases sub@.len() - j,
                        {
                            out.push(copy_vec(&sub[j]));
                            j += 1;
                        }
                        proof {
                            assert(seqs(out@) =~= seqs(before) + seqs(sub@)) by {
                                assert forall|k: int| 0 <= k < out@.len() implies seqs(out@)[k] == (seqs(before)
                                    + seqs(sub@))[k] by {
                                    if k < before.len() {
                                        assert(out@[k] == before[k]);
                                    } else {
                                        assert(out@[before.len() + (k - before.len())]@ == sub@[k - before.len()]@);
                                    }
                                }
                            }
                            assert(alt_lists(cur).last() == all[n - 1]);
                            assert(rest == sequences(all[n - 1]) + alt_sequences(alt_lists(cur).drop_last()));
                            assert(seqs(out@) + alt_sequences(alt_lists(cur).drop_last()) =~= seqs(before) + rest);
                            assert forall|s: Seq<Repair>|
                                holds_seq(out@, s) <==> holds_seq(before, s) || yields(all[n - 1], s) by {
                                if holds_seq(out@, s) {
                                    let k = choose|k: int| 0 <= k < out@.len() && (#[trigger] out@[k])@ == s;
                                    if k < before.len() {
                                        assert(before[k]@ == s);
                                    } else {
                                        assert(out@[before.len() + (k - before.len())]@ == sub@[k - before.len()]@);
                                    }
                                }
                                if holds_seq(before, s) {
                                    let k = choose|k: int| 0 <= k < before.len() && (#[trigger] before[k])@ == s;
                                    assert(out@[k]@ == s);
                                }
                                if holds_seq(sub@, s) {
                                    let k = choose|k: int| 0 <= k < sub@.len() && (#[trigger] sub@[k])@ == s;
                                    assert(out@[before.len() + k]@ == s);
                                }
                            }
                        }
                    },
                    None => {
                        break ;
                    },
                }
                match alts_parent(&cur) {
                    Some(p) => {
                        proof {
                            assert(alt_lists(p) =~= all.take(n - 1));
                            assert forall|s: Seq<Repair>|
                                holds_seq(out@, s) <==> holds_seq(first, s) || exists|k: int|
                                    n - 1 <= k < all.len() && yields(#[trigger] all[k], s) by {
                                assert(holds_seq(out@, s) <==> holds_seq(before, s) || yields(all[n - 1], s));
                                assert(holds_seq(before, s) <==> holds_seq(first, s) || exists|k: int|
                                    n <= k < all.len() && yields(#[trigger] all[k], s));
                                if exists|k: int| n - 1 <= k < all.len() && yields(#[trigger] all[k], s) {
                                    let k = choose|k: int| n - 1 <= k < all.len() && yields(#[trigger] all[k], s);
                                    if k >= n {
                                        assert(n <= k < all.len() && yields(all[k], s));
                                    }
                                }
                                if exists|k: int| n <= k < all.len() && yields(#[trigger] all[k], s) {
                                    let k = choose|k: int| n <= k < all.len() && yields(#[trigger] all[k], s);
                                    assert(n - 1 <= k < all.len() && yields(all[k], s));
                                }
                                if yields(all[n - 1], s) {
                                    assert(n - 1 <= n - 1 < all.len() && yields(all[n - 1], s));
                                }
                            }
                        }
                        cur = p;
                    },
                    None => {
                        break ;
                    },
                }
            }
            proof {
                assert(alt_sequences(alt_lists(cur)) =~= Seq::<Seq<Repair>>::empty());
                assert(seqs(out@) =~= seqs(first) + alt_sequences(all));
                assert forall|s: Seq<Repair>| holds_seq(out@, s) <==> yields(entries, s) by {
                    if exists|k: int| 0 <= k < all.len() && yields(#[trigger] all[k], s) {
                        let k = choose|k: int| 0 <= k < all.len() && yields(#[trigger] all[k], s);
                        assert(last_repair(all[k]) is Some && denotes(all[k], s));
                    }
                    if exists|k: int| 0 <= k < all.len() && last_repair(#[trigger] all[k]) is Some && denotes(all[k], s) {
                        let k = choose|k: int|
                            0 <= k < all.len() && last_repair(#[trigger] all[k]) is Some && denotes(all[k], s);
                        assert(yields(all[k], s));
                    }
                }
            }
        },
        None => {},
    }
    out
}

/// A list without a repair stands for the empty sequence only.
pub proof fn lemma_denotes_without_repair(entries: Seq<RepairEntry>, s: Seq<Repair>)
    requires
        last_repair(entries) is None,
    ensures
        denotes(entries, s) <==> s.len() == 0,
{
}


/// Whether the same lists were merged into two entries, in the same order.
fn same_alts(a: &Alternates, b: &Alternates) -> (same: bool)
    ensures
        same == (alt_lists(*a) == alt_lists(*b)),
    decreases alt_lists(*a),
{
    let mut x = a.clone();
    let mut y = b.clone();
    loop
        invariant
            (alt_lists(*a) == alt_lists(*b)) == (alt_lists(x) == alt_lists(y)),
            alt_lists(x).len() <= alt_lists(*a).len(),
            alt_lists(x) == alt_lists(*a).take(alt_lists(x).len() as int),
        decreases alt_lists(x).len(),
    {
        let ghost xs = alt_lists(x);
        let ghost ys = alt_lists(y);
        match (alts_val(&x), alts_val(&y)) {
            (None, None) => {
                assert(xs =~= ys);
                return true;
            },
            (Some(cx), Some(cy)) => {
                assert(rlist_entries(*cx) == alt_lists(*a)[xs.len() - 1]);
                assert(decreases_to!(alt_lists(*a) => alt_lists(*a)[xs.len() - 1]));
                if !same_list(cx, cy) {
                    return false;
                }
            },
            _ => {
                return false;
            },
        }
        let xp = alts_parent(&x);
        let yp = alts_parent(&y);
        match (xp, yp) {
            (Some(xn), Some(yn)) => {
                proof {
                    assert(xs =~= xs.drop_last().push(xs.last()));
                    assert(ys =~= ys.drop_last().push(ys.last()));
                    assert(alt_lists(xn) =~= alt_lists(*a).take(xs.len() - 1));
                }
                x = xn;
                y = yn;
            },
            _ => {
                return false;
            },
        }
    }
}

/// Whether two entries are the same.
fn same_entry(a: &RepairMerge, b: &RepairMerge) -> (same: bool)
    ensures
        same == (a@ == b@),
    decreases a@,
{
    match (a, b) {
        (RepairMerge::Repair(x), RepairMerge::Repair(y)) => *x == *y,
        (RepairMerge::Merge(x, xs), RepairMerge::Merge(y, ys)) => {
            assert(decreases_to!(a@ => a@->Merge_1));
            *x == *y && same_alts(xs, ys)
        },
        (RepairMerge::Terminator, RepairMerge::Terminator) => true,
        _ => false,
    }
}

/// Whether two lists hold the same entries.
pub fn same_list(a: &Cactus<RepairMerge>, b: &Cactus<RepairMerge>) -> (same: bool)
    ensures
        same == (rlist_entries(*a) == rlist_entries(*b)),
    decreases rlist_entries(*a),
{
    let mut x = rlist_clone(a);
    let mut y = rlist_clone(b);
    loop
        invariant
            (rlist_entries(*a) == rlist_entries(*b)) == (rlist_entries(x) == rlist_entries(y)),
            rlist_entries(x).len() <= rlist_entries(*a).len(),
            rlist_entries(x) == rlist_entries(*a).take(rlist_entries(x).len() as int),
        decreases rlist_entries(x).len(),
    {
        let ghost xs = rlist_entries(x);
        let ghost ys = rlist_entries(y);
        match (rlist_val(&x), rlist_val(&y)) {
            (None, None) => {
                assert(xs =~= ys);
                return true;
            },
            (Some(ex), Some(ey)) => {
                assert(ex@ == rlist_entries(*a)[xs.len() - 1]);
                assert(decreases_to!(rlist_entries(*a) => rlist_entries(*a)[xs.len() - 1]));
                if !same_entry(ex, ey) {
                    return false;
                }
            },
            _ => {
                return false;
            },
        }
        let xp = rlist_parent(&x);
        let yp = rlist_parent(&y);
        match (xp, yp) {
            (Some(xn), Some(yn)) => {
                proof {
                    assert(xs =~= xs.drop_last().push(xs.last()));
                    assert(ys =~= ys.drop_last().push(ys.last()));
                    assert(rlist_entries(xn) =~= rlist_entries(*a).take(xs.len() - 1));
                }
                x = xn;
                y = yn;
            },
            _ => {
                return false;
            },
        }
    }
}

/// The list `kept` with the list `new` merged into it: see [`merged`].
pub fn merge_lists(kept: &Cactus<RepairMerge>, new: Cactus<RepairMerge>) -> (fin: Cactus<RepairMerge>)
    ensures
        merged(rlist_entries(*kept), rlist_entries(new), rlist_entries(fin)),
{
    if same_list(kept, &new) {
        // If the repair sequences are identical, then merging is pointless.
        return rlist_clone(kept);
    }
    let ghost before = rlist_entries(*kept);
    let merge = match rlist_val(kept) {
        Some(RepairMerge::Repair(r)) => {
            let none = alts_new();
            RepairMerge::Merge(*r, alts_child(&none, new))
        },
        Some(RepairMerge::Merge(r, v)) => RepairMerge::Merge(*r, alts_child(v, new)),
        _ => {
            return new;
        },
    };
    match rlist_parent(kept) {
        Some(p) => {
            let fin = rlist_child(&p, merge);
            proof {
                assert(rlist_entries(fin).drop_last() =~= before.drop_last());
            }
            fin
        },
        None => rlist_clone(kept),
    }
}

impl<'a> CPCTPlus<'a> {
    /// Merges `new` into `kept`, so that `kept` stands for the repair sequences of both: see
    /// [`merged`]. No sequence is dropped. The stack, the position and the cost of `kept`
    /// stay.
    pub fn merge(&self, kept: &mut PathFNode, new: PathFNode)
        ensures
            final(kept)@.stack == old(kept)@.stack,
            final(kept)@.laidx == old(kept)@.laidx,
            final(kept)@.cf == old(kept)@.cf,
            merged(old(kept)@.entries, new@.entries, final(kept)@.entries),
    {
        kept.repairs = merge_lists(&kept.repairs, new.repairs);
    }

    /// Is `n` a success node? It is one if its repairs end with [`PARSE_AT_LEAST`] shifts, or
    /// if the parser accepts in it.
    pub fn success(&self, n: &PathFNode) -> (b: bool)
        ensures
            b == n@.success(self.model()),
    {
        if ends_with_parse_at_least_shifts(&n.repairs) {
            return true;
        }
        match pstack_val(&n.pstack) {
            Some(top) => match self.parser.stable().action(top, self.parser.next_tidx(n.laidx)) {
                Action::Accept => true,
                _ => false,
            },
            None => false,
        }
    }
}

/// An insertion leads from `n` to `nv`.
pub open spec fn inserted(m: ParserModel, n: NodeView, nv: NodeView) -> bool {
    exists|t: TIdx| nv == #[trigger] n.insert_nbr(m, t)
}

/// The neighbours that were added behind the first `from` hold different lists: those that
/// insertions lead to end with different insertions, the one that a deletion leads to ends
/// with it, and the one that a run of the simulator leads to ends with a shift, or holds what
/// the node holds.
proof fn lemma_added_once(
    m: ParserModel,
    n: NodeView,
    from: int,
    v1: Seq<(u16, PathFNode)>,
    v2: Seq<(u16, PathFNode)>,
    v3: Seq<(u16, PathFNode)>,
)
    requires
        0 <= from <= v1.len() <= v2.len() <= v3.len(),
        forall|k: int| 0 <= k < v1.len() ==> #[trigger] v2[k] == v1[k],
        forall|k: int| 0 <= k < v2.len() ==> #[trigger] v3[k] == v2[k],
        forall|k: int| from <= k < v1.len() ==> inserted(m, n, (#[trigger] v1[k]).1@),
        forall|k: int, l: int| from <= k < l < v1.len() ==> (#[trigger] v1[k]).1@.entries != (#[trigger] v1[l]).1@.entries,
        v2.len() == v1.len() || (v2.len() == v1.len() + 1 && v2[v1.len() as int].1@ == n.delete_nbr(m)),
        v3.len() == v2.len() || (v3.len() == v2.len() + 1 && v3[v2.len() as int].1@ == n.shift_nbr(m)),
    ensures
        forall|k: int, l: int| from <= k < l < v3.len() ==> (#[trigger] v3[k]).1@.entries != (#[trigger] v3[l]).1@.entries,
{
    let e = n.entries;
    assert forall|k: int, l: int| from <= k < l < v3.len() implies (#[trigger] v3[k]).1@.entries != (
    #[trigger] v3[l]).1@.entries by {
        let ek = v3[k].1@.entries;
        let el = v3[l].1@.entries;
        // The list of the first of the two ends with an insertion or a deletion.
        assert(ek.len() == e.len() + 1 && ek.last().repair() != Some(Repair::Shift) && (k >= v1.len()
            ==> ek.last() == RepairEntry::Repair(Repair::Delete))) by {
            if k < v1.len() {
                assert(v2[k] == v1[k]);
                assert(v3[k] == v2[k]);
                assert(inserted(m, n, v1[k].1@));
                let t = choose|t: TIdx| v1[k].1@ == #[trigger] n.insert_nbr(m, t);
                assert(ek.last() == RepairEntry::Repair(Repair::InsertTerm(t)));
            } else {
                assert(k == v1.len());
                assert(v3[k] == v2[k]);
                assert(ek.last() == RepairEntry::Repair(Repair::Delete));
            }
        }
        if l < v1.len() {
            assert(v2[k] == v1[k]);
            assert(v3[k] == v2[k]);
            assert(v2[l] == v1[l]);
            assert(v3[l] == v2[l]);
        } else if l < v2.len() {
            assert(v3[l] == v2[l]);
            assert(el.last() == RepairEntry::Repair(Repair::Delete));
            assert(inserted(m, n, v1[k].1@));
            let t = choose|t: TIdx| v1[k].1@ == #[trigger] n.insert_nbr(m, t);
            assert(v2[k] == v1[k]);
            assert(v3[k] == v2[k]);
            assert(ek.last() == RepairEntry::Repair(Repair::InsertTerm(t)));
        } else {
            assert(el == n.shift_nbr(m).entries);
            if el.len() == e.len() + 1 {
                assert(el.last() == RepairEntry::Repair(Repair::Shift));
            }
        }
    }
}

impl<'a> CPCTPlus<'a> {
    /// Adds the neighbours of `n` to `nbrs`: those that an insertion leads to, unless the
    /// newest repair of `n` is a deletion (a deletion is never followed by an insertion); the
    /// one that the deletion of the lookahead leads to; and the one that a run of the
    /// simulator on the input leads to. With `explore_all` unset, only the last of these is
    /// added; so it is where the cost of `n` is above [`COST_CEILING`], so that no cost
    /// passes 16 bits. Each neighbour is added once. No neighbour costs less than `n`.
    pub fn neighbours(&self, explore_all: bool, n: &PathFNode, nbrs: &mut Vec<(u16, PathFNode)>)
        requires
            n@.laidx <= self.model().lexemes.len(),
        ensures
            extends(old(nbrs)@, final(nbrs)@),
            forall|k: int|
                old(nbrs)@.len() <= k < final(nbrs)@.len() ==> {
                    &&& (#[trigger] final(nbrs)@[k]).0 == final(nbrs)@[k].1.cf
                    &&& n@.is_nbr(self.model(), explore_all, final(nbrs)@[k].1@)
                    &&& final(nbrs)@[k].1.cf >= n.cf
                    &&& final(nbrs)@[k].1.laidx <= self.model().lexemes.len()
                },
            forall|nv: NodeView|
                n@.is_nbr(self.model(), explore_all, nv) ==> exists|k: int|
                    old(nbrs)@.len() <= k < final(nbrs)@.len() && (#[trigger] final(nbrs)@[k]).1@ == nv,
            forall|k: int, l: int|
                old(nbrs)@.len() <= k < l < final(nbrs)@.len() ==> (#[trigger] final(nbrs)@[k]).1@.entries != (
                #[trigger] final(nbrs)@[l]).1@.entries,
    {
        let ghost m = self.model();
        let ghost v0 = nbrs@;
        let mut inserting = false;
        let explore_all = explore_all && n.cf <= COST_CEILING;
        if explore_all {
            match n.last_repair() {
                Some(Repair::Delete) => {},
                _ => {
                    inserting = true;
                    self.insert(n, nbrs);
                },
            }
        }
        let ghost v1 = nbrs@;
        if explore_all {
            self.delete(n, nbrs);
        }
        let ghost v2 = nbrs@;
        self.shift(n, nbrs);
        let ghost v3 = nbrs@;
        proof {
            assert forall|k: int| 0 <= k < v1.len() implies v3[k] == v1[k] by {
                assert(v2[k] == v1[k]);
            }
            let llen = m.lexemes.len();
            assert forall|k: int| v0.len() <= k < v3.len() implies {
                &&& (#[trigger] v3[k]).0 == v3[k].1.cf
                &&& n@.is_nbr(m, explore_all, v3[k].1@)
                &&& v3[k].1.cf >= n.cf
                &&& v3[k].1.laidx <= llen
            } by {
                if k < v1.len() {
                    assert(v3[k] == v1[k]);
                    assert(inserting);
                } else if k < v2.len() {
                    assert(v3[k] == v2[k]);
                    assert(v2[k].1@ == n@.delete_nbr(m));
                } else {
                    assert(v3[k].1@ == n@.shift_nbr(m));
                    let res = m.lr(None, n@.laidx, n@.stack);
                    if res.shifted {
                        crate::replay::lemma_sim_shifted(
                            m,
                            n@.stack,
                            m.lookahead(None, n@.laidx).tok_id,
                            m.can_shift(None, n@.laidx),
                            crate::parser::REDUCE_LIMIT as nat,
                        );
                    }
                }
            }
            assert(v2.len() == v1.len() || (v2.len() == v1.len() + 1 && v2[v1.len() as int].1@ == n@.delete_nbr(m)));
            assert(v3.len() == v2.len() || (v3.len() == v2.len() + 1 && v3[v2.len() as int].1@ == n@.shift_nbr(m)));
            assert forall|k: int| v0.len() <= k < v1.len() implies inserted(m, n@, (#[trigger] v1[k]).1@) by {
                assert(inserting);
                let t = choose|t: TIdx| n@.can_insert(m, t) && v1[k].1@ == #[trigger] n@.insert_nbr(m, t);
                assert(v1[k].1@ == n@.insert_nbr(m, t));
            }
            lemma_added_once(m, n@, v0.len() as int, v1, v2, v3);
            assert forall|nv: NodeView| n@.is_nbr(m, explore_all, nv) implies exists|k: int|
                v0.len() <= k < v3.len() && (#[trigger] v3[k]).1@ == nv by {
                if explore_all && last_repair(n@.entries) != Some(Repair::Delete) && exists|t: TIdx|
                    n@.can_insert(m, t) && nv == #[trigger] n@.insert_nbr(m, t) {
                    let t = choose|t: TIdx| n@.can_insert(m, t) && nv == #[trigger] n@.insert_nbr(m, t);
                    let k = choose|k: int| v0.len() <= k < v1.len() && (#[trigger] v1[k]).1@ == n@.insert_nbr(m, t);
                    assert(v3[k] == v1[k]);
                } else if explore_all && n@.can_delete(m) && nv == n@.delete_nbr(m) {
                    assert(v3[v2.len() - 1] == v2[v2.len() - 1]);
                } else {
                    assert(v3[v3.len() - 1].1@ == nv);
                }
            }
        }
    }
}


/// The list of entries yields a repair sequence that the parser reports, from position
/// `laidx` on, as `rs`.
pub open spec fn yielded(m: ParserModel, laidx: int, entries: Seq<RepairEntry>, rs: Seq<ParseRepair>) -> bool {
    exists|s: Seq<Repair>| #[trigger] yields(entries, s) && rs == m.parse_repairs(laidx, s)
}

/// The reported sequences that a vector of vectors holds, in their order.
pub open spec fn lists(v: Seq<Vec<ParseRepair>>) -> Seq<Seq<ParseRepair>> {
    Seq::new(v.len(), |k: int| v[k]@)
}

/// The repair sequences that a list of entries yields, in the order of the walk, as the
/// parser reports them from position `laidx` on.
pub open spec fn reported(m: ParserModel, laidx: int, entries: Seq<RepairEntry>) -> Seq<Seq<ParseRepair>> {
    Seq::new(sequences(entries).len(), |k: int| m.parse_repairs(laidx, sequences(entries)[k]))
}

impl<'a> CPCTPlus<'a> {
    /// The repairs `from`, applied from position `laidx` on, as the parser reports them: an
    /// insertion as it is, a deletion and a shift with the lexeme that they pass. Each
    /// sequence is converted by itself, from the position at which recovery began.
    pub fn repair_to_parse_repair(&self, laidx: usize, from: &Vec<Repair>) -> (out: Vec<ParseRepair>)
        requires
            laidx + consumed(from@) <= usize::MAX,
        ensures
            out@ == self.model().parse_repairs(laidx as int, from@),
    {
        let ghost m = self.model();
        let mut out: Vec<ParseRepair> = Vec::new();
        let mut cur = laidx;
        let mut i: usize = 0;
        assert(from@.take(0) =~= Seq::<Repair>::empty());
        while i < from.len()
            invariant
                m == self.model(),
                m == self.parser@,
                laidx + consumed(from@) <= usize::MAX,
                i <= from@.len(),
                cur == laidx + consumed(from@.take(i as int)),
                out@ == m.parse_repairs(laidx as int, from@.take(i as int)),
            decreases from@.len() - i,
        {
            proof {
                assert(from@.take(i + 1).drop_last() =~= from@.take(i as int));
                assert(from@.take(i + 1).last() == from@[i as int]);
                lemma_consumed_take(from@, i + 1);
            }
            match from[i] {
                Repair::InsertTerm(token_idx) => {
                    out.push(ParseRepair::Insert(token_idx));
                },
                Repair::Delete => {
                    out.push(ParseRepair::Delete(self.parser.next_lexeme(cur)));
                    cur += 1;
                },
                Repair::Shift => {
                    out.push(ParseRepair::Shift(self.parser.next_lexeme(cur)));
                    cur += 1;
                },
            }
            i += 1;
        }
        assert(from@.take(from@.len() as int) =~= from@);
        out
    }

    /// For each success node the repair sequences that its repairs yield, in the order of
    /// the walk, as the parser reports them: see [`reported`].
    pub fn collect_repairs(&self, in_laidx: usize, cnds: Vec<PathFNode>) -> (all_rprs: Vec<
        Vec<Vec<ParseRepair>>,
    >)
        requires
            forall|i: int, s: Seq<Repair>|
                0 <= i < cnds@.len() && #[trigger] yields((#[trigger] cnds@[i])@.entries, s) ==> in_laidx
                    + consumed(s) <= usize::MAX,
        ensures
            all_rprs@.len() == cnds@.len(),
            forall|i: int|
                0 <= i < cnds@.len() ==> lists((#[trigger] all_rprs@[i])@) == reported(
                    self.model(),
                    in_laidx as int,
                    cnds@[i]@.entries,
                ),
            forall|i: int, rs: Seq<ParseRepair>|
                0 <= i < cnds@.len() ==> (holds((#[trigger] all_rprs@[i])@, rs) <==> #[trigger] yielded(
                    self.model(),
                    in_laidx as int,
                    cnds@[i]@.entries,
                    rs,
                )),
    {
        let ghost m = self.model();
        let mut all_rprs: Vec<Vec<Vec<ParseRepair>>> = Vec::new();
        let mut i: usize = 0;
        while i < cnds.len()
            invariant
                m == self.model(),
                i <= cnds@.len(),
                all_rprs@.len() == i,
                forall|k: int|
                    0 <= k < i ==> lists((#[trigger] all_rprs@[k])@) == reported(m, in_laidx as int, cnds@[k]@.entries),
                forall|i: int, s: Seq<Repair>|
                    0 <= i < cnds@.len() && #[trigger] yields((#[trigger] cnds@[i])@.entries, s) ==> in_laidx
                        + consumed(s) <= usize::MAX,
                forall|k: int, rs: Seq<ParseRepair>|
                    0 <= k < i ==> (holds((#[trigger] all_rprs@[k])@, rs) <==> #[trigger] yielded(
                        m,
                        in_laidx as int,
                        cnds@[k]@.entries,
                        rs,
                    )),
            decreases cnds@.len() - i,
        {
            let ghost entries = cnds@[i as int]@.entries;
            let walk = traverse(&cnds[i].repairs);
            let mut rprs: Vec<Vec<ParseRepair>> = Vec::new();
            let mut j: usize = 0;
            while j < walk.len()
                invariant
                    m == self.model(),
                    i < cnds@.len(),
                    entries == cnds@[i as int]@.entries,
                    j <= walk@.len(),
                    rprs@.len() == j,
                    forall|s: Seq<Repair>| holds_seq(walk@, s) <==> yields(entries, s),
                    seqs(walk@) == sequences(entries),
                    forall|s: Seq<Repair>| #[trigger] yields(entries, s) ==> in_laidx + consumed(s) <= usize::MAX,
                    forall|l: int| 0 <= l < j ==> (#[trigger] rprs@[l])@ == m.parse_repairs(in_laidx as int, walk@[l]@),
                decreases walk@.len() - j,
            {
                assert(holds_seq(walk@, walk@[j as int]@));
                assert(yields(entries, walk@[j as int]@));
                let pr = self.repair_to_parse_repair(in_laidx, &walk[j]);
                rprs.push(pr);
                j += 1;
            }
            let ghost done = all_rprs@;
            proof {
                assert(lists(rprs@) =~= reported(m, in_laidx as int, entries)) by {
                    assert(seqs(walk@).len() == walk@.len());
                    assert forall|l: int| 0 <= l < walk@.len() implies sequences(entries)[l] == walk@[l]@ by {
                        assert(seqs(walk@)[l] == walk@[l]@);
                    }
                }
                assert forall|rs: Seq<ParseRepair>| holds(rprs@, rs) <==> yielded(m, in_laidx as int, entries, rs) by {
                    if holds(rprs@, rs) {
                        let l = choose|l: int| 0 <= l < rprs@.len() && (#[trigger] rprs@[l])@ == rs;
                        assert(holds_seq(walk@, walk@[l]@));
                        assert(yields(entries, walk@[l]@));
                    }
                    if yielded(m, in_laidx as int, entries, rs) {
                        let s = choose|s: Seq<Repair>| #[trigger]
                            yields(entries, s) && rs == m.parse_repairs(in_laidx as int, s);
                        assert(holds_seq(walk@, s));
                        let l = choose|l: int| 0 <= l < walk@.len() && (#[trigger] walk@[l])@ == s;
                        assert(rprs@[l]@ == rs);
                    }
                }
            }
            all_rprs.push(rprs);
            proof {
                assert forall|k: int| 0 <= k < i + 1 implies lists((#[trigger] all_rprs@[k])@) == reported(
                    m,
                    in_laidx as int,
                    cnds@[k]@.entries,
                ) by {
                    if k < i {
                        assert(all_rprs@[k] == done[k]);
                    }
                }
                assert forall|k: int, rs: Seq<ParseRepair>| 0 <= k < i + 1 implies (holds(
                    (#[trigger] all_rprs@[k])@,
                    rs,
                ) <==> #[trigger] yielded(m, in_laidx as int, cnds@[k]@.entries, rs)) by {
                    if k < i {
                        assert(all_rprs@[k] == done[k]);
                    }
                }
            }
            i += 1;
        }
        all_rprs
    }
}


/// The configuration with the states `stack` at position `laidx`.
pub open spec fn config(stack: Seq<StIdx>, laidx: usize) -> Config {
    Config { stack, laidx: laidx as int }
}

/// Each of the sequences `rprs` is a sequence of successful repairs of cost `cost`, found
/// from `start`, without the shifts at its end; and if there is such a sequence, no success
/// node that the search from `start` reaches costs less than `cost`.
pub open spec fn all_repairs_of(m: ParserModel, start: Config, cost: int, rprs: Seq<Vec<ParseRepair>>) -> bool {
    &&& forall|k: int| 0 <= k < rprs.len() ==> m.repair_of(start, cost, (#[trigger] rprs[k])@)
    &&& rprs.len() > 0 ==> m.cheapest(NodeView::start(start), cost)
}

/// One of the nodes yields the repair sequence that the parser reports as `full`.
pub open spec fn node_yields(m: ParserModel, laidx: int, cnds: Seq<PathFNode>, full: Seq<ParseRepair>) -> bool {
    exists|i: int| 0 <= i < cnds.len() && yielded(m, laidx, (#[trigger] cnds[i])@.entries, full)
}

/// Of the repair sequences that the nodes yield, `full` is one after which the parser gets
/// furthest.
pub open spec fn best(m: ParserModel, start: Config, cnds: Seq<PathFNode>, full: Seq<ParseRepair>) -> bool {
    &&& node_yields(m, start.laidx, cnds, full)
    &&& forall|other: Seq<ParseRepair>| #[trigger]
        node_yields(m, start.laidx, cnds, other) ==> m.score(start, other) <= m.score(start, full)
}

/// `rs` is what recovery returns for the nodes `cnds`: a repair sequence that one of the
/// nodes yields and after which the parser gets furthest, without the shifts at its end.
pub open spec fn chosen(m: ParserModel, start: Config, cnds: Seq<PathFNode>, rs: Seq<ParseRepair>) -> bool {
    exists|full: Seq<ParseRepair>| #[trigger] best(m, start, cnds, full) && rs == without_trailing_shifts(full)
}

/// Where the nodes yield exactly the repair sequences that lead the search from `start` to
/// its first success nodes of cost `cost`, the sequences chosen for them are the repairs that
/// recovery owes.
pub proof fn lemma_chosen_is_repair(m: ParserModel, start: Config, cost: int, cnds: Seq<PathFNode>)
    requires
        m.found_exact(NodeView::start(start), cost, node_views(cnds)),
    ensures
        forall|full: Seq<ParseRepair>| best(m, start, cnds, full) <==> m.is_best_full(start, cost, full),
        forall|rs: Seq<ParseRepair>| chosen(m, start, cnds, rs) <==> m.is_repair(start, cost, rs),
{
    let base = NodeView::start(start);
    let found = node_views(cnds);
    assert forall|full: Seq<ParseRepair>| node_yields(m, start.laidx, cnds, full) <==> m.owed_full(
        start,
        cost,
        full,
    ) by {
        if node_yields(m, start.laidx, cnds, full) {
            let i = choose|i: int| 0 <= i < cnds.len() && yielded(m, start.laidx, (#[trigger] cnds[i])@.entries, full);
            let s = choose|s: Seq<Repair>| #[trigger]
                yields(cnds[i]@.entries, s) && full == m.parse_repairs(start.laidx, s);
            assert(found.contains(cnds[i]@));
            assert(exists|f: NodeView| found.contains(f) && #[trigger] yields(f.entries, s));
            assert(m.best_seq(base, cost, s));
        }
        if m.owed_full(start, cost, full) {
            let s = choose|s: Seq<Repair>| #[trigger] m.best_seq(base, cost, s) && full == m.parse_repairs(
                start.laidx,
                s,
            );
            let f = choose|f: NodeView| found.contains(f) && #[trigger] yields(f.entries, s);
            let i = choose|i: int| 0 <= i < cnds.len() && (#[trigger] cnds[i])@ == f;
            assert(yielded(m, start.laidx, cnds[i]@.entries, full));
        }
    }
    assert forall|full: Seq<ParseRepair>| best(m, start, cnds, full) <==> m.is_best_full(start, cost, full) by {
        if best(m, start, cnds, full) {
            assert forall|other: Seq<ParseRepair>| #[trigger] m.owed_full(start, cost, other) implies m.score(
                start,
                other,
            ) <= m.score(start, full) by {
                assert(node_yields(m, start.laidx, cnds, other));
            }
        }
        if m.is_best_full(start, cost, full) {
            assert forall|other: Seq<ParseRepair>| #[trigger]
                node_yields(m, start.laidx, cnds, other) implies m.score(start, other) <= m.score(start, full) by {
                assert(m.owed_full(start, cost, other));
            }
        }
    }
    assert forall|rs: Seq<ParseRepair>| chosen(m, start, cnds, rs) <==> m.is_repair(start, cost, rs) by {
        if chosen(m, start, cnds, rs) {
            let full = choose|full: Seq<ParseRepair>| #[trigger]
                best(m, start, cnds, full) && rs == without_trailing_shifts(full);
            assert(m.is_best_full(start, cost, full));
        }
        if m.is_repair(start, cost, rs) {
            let full = choose|full: Seq<ParseRepair>| #[trigger]
                m.is_best_full(start, cost, full) && rs == without_trailing_shifts(full);
            assert(best(m, start, cnds, full));
        }
    }
}

/// The nodes `cnds` are what a search from `start` can return, `complete` is what it can say
/// of itself, and `rprs` is what recovery returns for the nodes: see [`searched`] and
/// [`chosen`]. Where the search came to its end with nodes, and insertions and deletions cost
/// something, `rprs` holds exactly the repairs that recovery owes: see
/// [`ParserModel::is_repair`].
pub open spec fn recovered(
    m: ParserModel,
    start: Config,
    cnds: Seq<PathFNode>,
    complete: bool,
    rprs: Seq<Vec<ParseRepair>>,
) -> bool {
    &&& searched(m, NodeView::start(start), cnds, complete)
    &&& forall|rs: Seq<ParseRepair>| holds(rprs, rs) <==> chosen(m, start, cnds, rs)
    &&& complete && cnds.len() > 0 && m.repairs_cost() ==> forall|rs: Seq<ParseRepair>|
        holds(rprs, rs) <==> m.is_repair(start, cnds[0].cf as int, rs)
}

impl<'a> CPCTPlus<'a> {
    /// What recovery returns for the nodes `cnds` that a search from the stack `in_pstack` at
    /// position `in_laidx` has found: of the repair sequences that the nodes yield, those after
    /// which the parser gets furthest, without the shifts at their end, each once, the shorter
    /// before the longer. There is a sequence exactly if a node yields one.
    pub fn choose_repairs(&self, in_laidx: usize, in_pstack: &Vec<StIdx>, cnds: Vec<PathFNode>) -> (rprs: Vec<
        Vec<ParseRepair>,
    >)
        requires
            forall|i: int, s: Seq<Repair>|
                0 <= i < cnds@.len() && #[trigger] yields((#[trigger] cnds@[i])@.entries, s) ==> in_laidx
                    + consumed(s) < usize::MAX,
        ensures
            forall|rs: Seq<ParseRepair>|
                holds(rprs@, rs) <==> chosen(self.model(), config(in_pstack@, in_laidx), cnds@, rs),
            rprs@.len() > 0 <==> exists|i: int, s: Seq<Repair>|
                0 <= i < cnds@.len() && #[trigger] yields((#[trigger] cnds@[i])@.entries, s),
            forall|k: int, l: int| 0 <= k < l < rprs@.len() ==> (#[trigger] rprs@[k])@ != (#[trigger] rprs@[l])@,
            forall|k: int, l: int|
                0 <= k < l < rprs@.len() ==> (#[trigger] rprs@[k])@.len() <= (#[trigger] rprs@[l])@.len(),
    {
        let ghost m = self.model();
        let ghost start = config(in_pstack@, in_laidx);
        let ghost nodes = cnds@;
        let full_rprs = self.collect_repairs(in_laidx, cnds);
        proof {
            assert forall|rs: Seq<ParseRepair>| in_pool(full_rprs@, rs) <==> node_yields(
                m,
                in_laidx as int,
                nodes,
                rs,
            ) by {
                if in_pool(full_rprs@, rs) {
                    let (i, j) = choose|i: int, j: int|
                        0 <= i < full_rprs@.len() && 0 <= j < full_rprs@[i]@.len() && (
                        #[trigger] full_rprs@[i]@[j])@ == rs;
                    assert(holds(full_rprs@[i]@, rs));
                    assert(yielded(m, in_laidx as int, nodes[i]@.entries, rs));
                }
                if node_yields(m, in_laidx as int, nodes, rs) {
                    let i = choose|i: int|
                        0 <= i < nodes.len() && yielded(m, in_laidx as int, (#[trigger] nodes[i])@.entries, rs);
                    assert(holds(full_rprs@[i]@, rs));
                    let j = choose|j: int| 0 <= j < full_rprs@[i]@.len() && (#[trigger] full_rprs@[i]@[j])@ == rs;
                    assert(full_rprs@[i]@[j]@ == rs);
                }
            }
            assert forall|rs: Seq<ParseRepair>| in_pool(full_rprs@, rs) implies in_laidx + passes(rs)
                < usize::MAX by {
                let i = choose|i: int|
                    0 <= i < nodes.len() && yielded(m, in_laidx as int, (#[trigger] nodes[i])@.entries, rs);
                let s = choose|s: Seq<Repair>| #[trigger]
                    yields(nodes[i]@.entries, s) && rs == m.parse_repairs(in_laidx as int, s);
                crate::replay::lemma_parse_repairs(m, in_laidx as int, s);
            }
        }
        let mut rprs = rank_cnds(self.parser, in_laidx, in_pstack, full_rprs);
        let ghost ranked = rprs@;
        proof {
            assert forall|full: Seq<ParseRepair>| holds(ranked, full) <==> best(m, start, nodes, full) by {
                if holds(ranked, full) {
                    assert forall|other: Seq<ParseRepair>| #[trigger]
                        node_yields(m, start.laidx, nodes, other) implies m.score(start, other) <= m.score(
                        start,
                        full,
                    ) by {
                        assert(in_pool(full_rprs@, other));
                    }
                }
                if best(m, start, nodes, full) {
                    assert(in_pool(full_rprs@, full));
                    assert forall|qs: Seq<ParseRepair>| in_pool(full_rprs@, qs) implies m.score(start, qs)
                        <= m.score(start, full) by {
                        assert(node_yields(m, start.laidx, nodes, qs));
                    }
                }
            }
        }
        simplify_repairs(&mut rprs);
        proof {
            assert forall|rs: Seq<ParseRepair>| holds(rprs@, rs) <==> chosen(m, start, nodes, rs) by {
                if holds(rprs@, rs) {
                    assert(simplified_from(ranked, rs));
                    let i = choose|i: int|
                        0 <= i < ranked.len() && without_trailing_shifts((#[trigger] ranked[i])@) == rs;
                    assert(holds(ranked, ranked[i]@));
                    assert(best(m, start, nodes, ranked[i]@));
                }
                if chosen(m, start, nodes, rs) {
                    let full = choose|full: Seq<ParseRepair>| #[trigger]
                        best(m, start, nodes, full) && rs == without_trailing_shifts(full);
                    assert(holds(ranked, full));
                    let i = choose|i: int| 0 <= i < ranked.len() && (#[trigger] ranked[i])@ == full;
                    assert(without_trailing_shifts(ranked[i]@) == rs);
                    assert(simplified_from(ranked, rs));
                }
            }
            if rprs@.len() > 0 {
                assert(holds(rprs@, rprs@[0]@));
                let full = choose|full: Seq<ParseRepair>| #[trigger]
                    best(m, start, nodes, full) && rprs@[0]@ == without_trailing_shifts(full);
                let i = choose|i: int|
                    0 <= i < nodes.len() && yielded(m, in_laidx as int, (#[trigger] nodes[i])@.entries, full);
                let s = choose|s: Seq<Repair>| #[trigger]
                    yields(nodes[i]@.entries, s) && full == m.parse_repairs(in_laidx as int, s);
                assert(yields(nodes[i]@.entries, s));
            }
            if exists|i: int, s: Seq<Repair>|
                0 <= i < nodes.len() && #[trigger] yields((#[trigger] nodes[i])@.entries, s) {
                let (i, s) = choose|i: int, s: Seq<Repair>|
                    0 <= i < nodes.len() && #[trigger] yields((#[trigger] nodes[i])@.entries, s);
                let rs = m.parse_repairs(in_laidx as int, s);
                assert(yielded(m, in_laidx as int, nodes[i]@.entries, rs));
                assert(node_yields(m, in_laidx as int, nodes, rs));
                assert(in_pool(full_rprs@, rs));
                assert(ranked.len() > 0);
            }
        }
        rprs
    }

    /// What recovery makes of the nodes `cnds` that a search from the stack `in_pstack` at
    /// position `in_laidx` has found: the sequences that [`choose_repairs`](Self::choose_repairs)
    /// chooses are the result, and the first of them is replayed on `in_pstack` and `tstack`.
    /// Without a sequence, the stack and the trees stay, and the position is `in_laidx`.
    ///
    /// Where the nodes yield exactly the repair sequences that lead the search to its first
    /// success nodes of some cost, as the nodes of a search that came to its end do, the result
    /// holds exactly the repairs that recovery owes: see [`ParserModel::is_repair`].
    pub fn recover_with(
        &self,
        in_laidx: usize,
        in_pstack: &mut Vec<StIdx>,
        tstack: &mut Vec<Node>,
        cnds: Vec<PathFNode>,
    ) -> (res: (usize, Vec<Vec<ParseRepair>>))
        requires
            forall|i: int, s: Seq<Repair>|
                0 <= i < cnds@.len() && #[trigger] yields((#[trigger] cnds@[i])@.entries, s) ==> in_laidx
                    + consumed(s) < usize::MAX,
        ensures
            forall|rs: Seq<ParseRepair>|
                holds(res.1@, rs) <==> chosen(self.model(), config(old(in_pstack)@, in_laidx), cnds@, rs),
            res.1@.len() > 0 <==> exists|i: int, s: Seq<Repair>|
                0 <= i < cnds@.len() && #[trigger] yields((#[trigger] cnds@[i])@.entries, s),
            forall|k: int, l: int|
                0 <= k < l < res.1@.len() ==> (#[trigger] res.1@[k])@ != (#[trigger] res.1@[l])@,
            forall|k: int, l: int|
                0 <= k < l < res.1@.len() ==> (#[trigger] res.1@[k])@.len() <= (#[trigger] res.1@[l])@.len(),
            res.1@.len() == 0 ==> res.0 == in_laidx && final(in_pstack)@ == old(in_pstack)@ && final(tstack)@
                == old(tstack)@,
            res.1@.len() > 0 ==> final(in_pstack)@ == self.model().apply(
                config(old(in_pstack)@, in_laidx),
                res.1@[0]@,
            ).stack,
            res.1@.len() > 0 ==> res.0 == self.model().apply(config(old(in_pstack)@, in_laidx), res.1@[0]@).laidx,
            res.1@.len() > 0 ==> trees_of(final(tstack)@) == self.model().apply_trees(
                config(old(in_pstack)@, in_laidx),
                trees_of(old(tstack)@),
                res.1@[0]@,
            ),
            forall|cost: int| #[trigger]
                self.model().found_exact(
                    NodeView::start(config(old(in_pstack)@, in_laidx)),
                    cost,
                    node_views(cnds@),
                ) ==> forall|rs: Seq<ParseRepair>|
                    holds(res.1@, rs) <==> self.model().is_repair(config(old(in_pstack)@, in_laidx), cost, rs),
    {
        let ghost m = self.model();
        let ghost start = config(in_pstack@, in_laidx);
        let ghost nodes = cnds@;
        let rprs = self.choose_repairs(in_laidx, in_pstack, cnds);
        proof {
            assert forall|cost: int| #[trigger]
                m.found_exact(NodeView::start(start), cost, node_views(nodes)) implies forall|rs: Seq<ParseRepair>|
                holds(rprs@, rs) <==> m.is_repair(start, cost, rs) by {
                lemma_chosen_is_repair(m, start, cost, nodes);
            }
        }
        if rprs.len() == 0 {
            return (in_laidx, rprs);
        }
        proof {
            assert(holds(rprs@, rprs@[0]@));
            let full = choose|full: Seq<ParseRepair>| #[trigger]
                best(m, start, nodes, full) && rprs@[0]@ == without_trailing_shifts(full);
            let i = choose|i: int|
                0 <= i < nodes.len() && yielded(m, in_laidx as int, (#[trigger] nodes[i])@.entries, full);
            let s = choose|s: Seq<Repair>| #[trigger]
                yields(nodes[i]@.entries, s) && full == m.parse_repairs(in_laidx as int, s);
            crate::replay::lemma_parse_repairs(m, in_laidx as int, s);
            crate::replay::lemma_without_trailing_shifts(m, full);
        }
        let laidx = apply_repairs(self.parser, in_laidx, in_pstack, tstack, &rprs[0]);
        (laidx, rprs)
    }

    /// Recovers from an error at position `in_laidx`, where the parser's stack is `in_pstack`
    /// and its parse trees are `tstack`.
    ///
    /// The search looks for the cheapest sequences of insertions, deletions and shifts after
    /// which the parser accepts or has shifted [`PARSE_AT_LEAST`] lexemes in a row. Of the
    /// sequences found, those after which the parser gets furthest are kept, without the
    /// shifts at their end and each once. The first of them is replayed on `in_pstack` and
    /// `tstack`. The result is the position behind the replayed repairs, and the sequences
    /// kept.
    ///
    /// Where the search finds nothing, or the moment `finish_by` comes before it has found
    /// anything, the result is `in_laidx` and no sequence, and `in_pstack` and `tstack` stay
    /// as they are. So it is where the search reaches no success node at all.
    ///
    /// Every sequence returned is a sequence of successful repairs without the shifts at its
    /// end; all of them cost the same, and no success node that the search reaches costs less;
    /// in none of them an insertion stands directly behind a deletion; no two of them are the
    /// same. Where the reductions of the table agree and `in_pstack` is a stack that the parser
    /// can have, the parser can go on after the replay: it shifts the lookahead, or it accepts.
    pub fn recover(
        &self,
        finish_by: Instant,
        in_laidx: usize,
        in_pstack: &mut Vec<StIdx>,
        tstack: &mut Vec<Node>,
    ) -> (res: (usize, Vec<Vec<ParseRepair>>))
        requires
            in_laidx <= self.model().lexemes.len(),
        ensures
            res.1@.len() == 0 ==> res.0 == in_laidx && final(in_pstack)@ == old(in_pstack)@ && final(tstack)@
                == old(tstack)@,
            res.1@.len() > 0 ==> final(in_pstack)@ == self.model().apply(
                config(old(in_pstack)@, in_laidx),
                res.1@[0]@,
            ).stack,
            res.1@.len() > 0 ==> res.0 == self.model().apply(config(old(in_pstack)@, in_laidx), res.1@[0]@).laidx,
            res.1@.len() > 0 ==> trees_of(final(tstack)@) == self.model().apply_trees(
                config(old(in_pstack)@, in_laidx),
                trees_of(old(tstack)@),
                res.1@[0]@,
            ),
            res.0 >= in_laidx,
            exists|cnds: Seq<PathFNode>, complete: bool| #[trigger]
                recovered(self.model(), config(old(in_pstack)@, in_laidx), cnds, complete, res.1@),
            self.model().hopeless(NodeView::start(config(old(in_pstack)@, in_laidx))) ==> res.1@.len() == 0,
            exists|cost: int| #[trigger] all_repairs_of(self.model(), config(old(in_pstack)@, in_laidx), cost, res.1@),
            forall|k: int| 0 <= k < res.1@.len() ==> no_insert_behind_delete((#[trigger] res.1@[k])@),
            forall|k: int, l: int|
                0 <= k < res.1@.len() && 0 <= l < res.1@.len() ==> self.model().parse_repairs_cost(
                    (#[trigger] res.1@[k])@,
                ) == self.model().parse_repairs_cost((#[trigger] res.1@[l])@),
            forall|k: int, l: int|
                0 <= k < l < res.1@.len() ==> (#[trigger] res.1@[k])@ != (#[trigger] res.1@[l])@,
            self.model().reductions_agree() && self.model().stack_valid(old(in_pstack)@) && res.1@.len() > 0
                ==> self.model().goes_on(config(final(in_pstack)@, res.0)),
    {
        let ghost m = self.model();
        let ghost start = config(in_pstack@, in_laidx);
        let llen = self.parser.lexemes_len();
        let start_cactus_pstack = lift(in_pstack);
        let start_node = PathFNode {
            pstack: start_cactus_pstack,
            laidx: in_laidx,
            repairs: rlist_child(&rlist_new(), RepairMerge::Terminator),
            cf: 0,
        };
        proof {
            assert(start_node@.entries =~= seq![RepairEntry::Terminator]);
            assert(start_node@ == NodeView::start(start));
            lemma_start_ok(m, start);
        }
        let astar_cnds = dijkstra(self, &finish_by, start_node);
        let ghost complete = choose|complete: bool| #[trigger]
            searched(m, NodeView::start(start), astar_cnds@, complete);
        proof {
            assert(searched(m, NodeView::start(start), astar_cnds@, complete));
        }
        let ghost cost = if astar_cnds@.len() > 0 {
            astar_cnds@[0].cf as int
        } else {
            0
        };
        let ghost nodes = astar_cnds@;
        proof {
            assert(all_ok(nodes, m, start));
            assert forall|i: int, s: Seq<Repair>|
                0 <= i < nodes.len() && #[trigger] yields((#[trigger] nodes[i])@.entries, s) implies in_laidx
                + consumed(s) < usize::MAX by {
                assert(nodes[i]@.ok(m, start));
                assert(nodes[i]@.seq_ok(m, start, s));
                let n = choose|n: nat| m.reaches(start, s, nodes[i]@.config(), n);
                lemma_leads_consumed(m, start, s, nodes[i]@.config(), n);
            }
        }
        let res = self.recover_with(in_laidx, in_pstack, tstack, astar_cnds);
        proof {
            let rprs = res.1@;
            assert(recovered(m, start, nodes, complete, rprs));
            if m.hopeless(NodeView::start(start)) && nodes.len() > 0 {
                let (x, k) = choose|x: NodeView, k: nat| #[trigger]
                    m.search_reaches(NodeView::start(start), x, k) && x.success(m) && x.cf == nodes[0].cf as int;
                assert(false);
            }
            assert forall|k: int| 0 <= k < rprs.len() implies #[trigger] m.repair_of(start, cost, rprs[k]@) by {
                assert(holds(rprs, rprs[k]@));
                assert(chosen(m, start, nodes, rprs[k]@));
                let full = choose|full: Seq<ParseRepair>| #[trigger]
                    best(m, start, nodes, full) && rprs[k]@ == without_trailing_shifts(full);
                let i = choose|i: int|
                    0 <= i < nodes.len() && yielded(m, in_laidx as int, (#[trigger] nodes[i])@.entries, full);
                let s = choose|s: Seq<Repair>| #[trigger]
                    yields(nodes[i]@.entries, s) && full == m.parse_repairs(in_laidx as int, s);
                assert(nodes[i]@.ok(m, start));
                assert(nodes[i]@.seq_ok(m, start, s));
                assert(nodes[i]@.success(m));
                assert(nodes[i].cf == nodes[0].cf);
                assert(m.leads(start, s, nodes[i]@.config()));
                assert(m.candidate(start, cost, full));
            }
            if rprs.len() == 0 {
                assert(all_repairs_of(m, start, 0, rprs));
            } else {
                assert forall|k: int| 0 <= k < rprs.len() implies no_insert_behind_delete((#[trigger] rprs[k])@)
                    && m.parse_repairs_cost(rprs[k]@) == cost by {
                    assert(m.repair_of(start, cost, rprs[k]@));
                    lemma_repair_of(m, start, cost, rprs[k]@);
                }
                lemma_apply_laidx(m, start, rprs[0]@);
                assert(nodes.len() > 0) by {
                    assert(holds(rprs, rprs[0]@));
                }
                assert(all_repairs_of(m, start, cost, rprs));
                if m.reductions_agree() && m.stack_valid(start.stack) {
                    assert(m.repair_of(start, cost, rprs[0]@));
                    crate::agreement::lemma_repair_goes_on(m, start, cost, rprs[0]@);
                }
            }
        }
        res
    }
}

} // verus!
