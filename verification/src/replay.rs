//! What repair sequences mean: how the simulator applies them, what they cost, and which
//! sequences a search node stands for.

use crate::cpctplus::{ParseRepair, Repair, RepairEntry, COST_CEILING, PARSE_AT_LEAST};
use crate::grammar::TIdx;
use crate::lex::Lexeme;
use crate::parser::{ParserModel, Tree, REDUCE_LIMIT};
use crate::statetable::{Action, StIdx};
use vstd::prelude::*;

verus! {

/// A configuration of the parser: its stack and its position in the input.
pub struct Config {
    pub stack: Seq<StIdx>,
    pub laidx: int,
}

impl ParserModel {
    /// The lexeme that stands for an inserted token `t` at position `laidx`: it has length 0
    /// and starts where the lexeme at `laidx` starts.
    pub open spec fn inserted_lexeme(self, t: TIdx, laidx: int) -> Lexeme {
        Lexeme { tok_id: t, start: self.next_lexeme(laidx).start, len: 0 }
    }

    /// The configuration after one repair that succeeds: an insertion succeeds if the token
    /// is not the end-of-input token and the run of the simulator on it changes the stack, a
    /// shift if the simulator shifts the lookahead, a deletion if the input has not ended.
    pub open spec fn repair_step(self, c: Config, r: Repair) -> Option<Config> {
        match r {
            Repair::InsertTerm(t) => {
                let res = self.lr(Some(self.inserted_lexeme(t, c.laidx)), c.laidx, c.stack);
                if t != self.grm.eof_token && res.stack != c.stack {
                    Some(Config { stack: res.stack, laidx: c.laidx })
                } else {
                    None
                }
            },
            Repair::Delete => if c.laidx < self.lexemes.len() {
                Some(Config { stack: c.stack, laidx: c.laidx + 1 })
            } else {
                None
            },
            Repair::Shift => {
                let res = self.lr(None, c.laidx, c.stack);
                if res.shifted {
                    Some(Config { stack: res.stack, laidx: c.laidx + 1 })
                } else {
                    None
                }
            },
        }
    }

    /// The configuration after the reductions that the lookahead allows, where they change
    /// the stack and no shift follows them.
    pub open spec fn settle(self, c: Config) -> Option<Config> {
        let res = self.lr(None, c.laidx, c.stack);
        if !res.shifted && res.stack != c.stack {
            Some(Config { stack: res.stack, laidx: c.laidx })
        } else {
            None
        }
    }

    /// From `start`, the repairs of `s`, each of which succeeds, lead to `c` in `n` moves. A
    /// move is a repair, or the reductions that the lookahead allows between two repairs.
    pub open spec fn reaches(self, start: Config, s: Seq<Repair>, c: Config, n: nat) -> bool
        decreases n,
    {
        if n == 0 {
            s.len() == 0 && c == start
        } else {
            ||| exists|m: Config|
                self.reaches(start, s, m, (n - 1) as nat) && #[trigger] self.settle(m) == Some(c)
            ||| s.len() > 0 && exists|m: Config|
                self.reaches(start, s.drop_last(), m, (n - 1) as nat) && #[trigger] self.repair_step(
                    m,
                    s.last(),
                ) == Some(c)
        }
    }

    /// The repairs of `s`, each of which succeeds, lead from `start` to `c`.
    pub open spec fn leads(self, start: Config, s: Seq<Repair>, c: Config) -> bool {
        exists|n: nat| self.reaches(start, s, c, n)
    }

    /// The parser accepts in configuration `c`.
    pub open spec fn accepts(self, c: Config) -> bool {
        c.stack.len() > 0 && self.lr.action(c.stack.last(), self.next_tidx(c.laidx)) == Action::Accept
    }

    /// The cost of repair `r` at position `laidx`: the cost of the token that it inserts or
    /// deletes; a shift costs nothing.
    pub open spec fn repair_cost(self, laidx: int, r: Repair) -> int {
        match r {
            Repair::InsertTerm(t) => self.token_cost(t) as int,
            Repair::Delete => self.token_cost(self.next_tidx(laidx)) as int,
            Repair::Shift => 0,
        }
    }

    /// The cost of the repairs of `s`, applied from position `laidx` on.
    pub open spec fn seq_cost(self, laidx: int, s: Seq<Repair>) -> int
        decreases s.len(),
    {
        if s.len() == 0 {
            0
        } else {
            self.seq_cost(laidx, s.drop_last()) + self.repair_cost(laidx + consumed(s.drop_last()), s.last())
        }
    }

    /// The repair `r` at position `laidx` as the parser reports it.
    pub open spec fn parse_repair(self, laidx: int, r: Repair) -> ParseRepair {
        match r {
            Repair::InsertTerm(t) => ParseRepair::Insert(t),
            Repair::Delete => ParseRepair::Delete(self.next_lexeme(laidx)),
            Repair::Shift => ParseRepair::Shift(self.next_lexeme(laidx)),
        }
    }

    /// The repairs of `s`, applied from position `laidx` on, as the parser reports them.
    pub open spec fn parse_repairs(self, laidx: int, s: Seq<Repair>) -> Seq<ParseRepair>
        decreases s.len(),
    {
        if s.len() == 0 {
            Seq::empty()
        } else {
            self.parse_repairs(laidx, s.drop_last()).push(
                self.parse_repair(laidx + consumed(s.drop_last()), s.last()),
            )
        }
    }

    /// The cost of a reported repair.
    pub open spec fn parse_repair_cost(self, r: ParseRepair) -> int {
        match r {
            ParseRepair::Insert(t) => self.token_cost(t) as int,
            ParseRepair::Delete(l) => self.token_cost(l.tok_id) as int,
            ParseRepair::Shift(_) => 0,
        }
    }

    /// The cost of a reported repair sequence.
    pub open spec fn parse_repairs_cost(self, s: Seq<ParseRepair>) -> int
        decreases s.len(),
    {
        if s.len() == 0 {
            0
        } else {
            self.parse_repairs_cost(s.drop_last()) + self.parse_repair_cost(s.last())
        }
    }
}

/// How many lexemes of the input the repairs of `s` pass: one for each deletion and shift.
pub open spec fn consumed(s: Seq<Repair>) -> int
    decreases s.len(),
{
    if s.len() == 0 {
        0
    } else {
        consumed(s.drop_last()) + if s.last() is InsertTerm {
            0int
        } else {
            1int
        }
    }
}

/// How many shifts stand at the end of `s`.
pub open spec fn trailing_shifts(s: Seq<Repair>) -> nat
    decreases s.len(),
{
    if s.len() == 0 || s.last() != Repair::Shift {
        0
    } else {
        trailing_shifts(s.drop_last()) + 1
    }
}

/// In `s` no insertion stands directly behind a deletion.
pub open spec fn no_insert_after_delete(s: Seq<Repair>) -> bool {
    forall|i: int| 0 <= i && i + 1 < s.len() && s[i] == Repair::Delete ==> !(#[trigger] s[i + 1] is InsertTerm)
}

/// `s` ends with a deletion.
pub open spec fn ends_with_delete(s: Seq<Repair>) -> bool {
    s.len() > 0 && s.last() == Repair::Delete
}

/// The repair of the newest entry, where it has one.
pub open spec fn last_repair(entries: Seq<RepairEntry>) -> Option<Repair> {
    if entries.len() == 0 {
        None
    } else {
        entries.last().repair()
    }
}

/// How many entries at the newer end of the list are shifts.
pub open spec fn entry_shifts(entries: Seq<RepairEntry>) -> nat
    decreases entries.len(),
{
    if entries.len() == 0 || entries.last().repair() != Some(Repair::Shift) {
        0
    } else {
        entry_shifts(entries.drop_last()) + 1
    }
}

/// The list of entries stands for the repair sequence `s`: `s` consists of the repairs of
/// the entries, or one of the lists that were merged into the newest entry yields it. The
/// terminator and the empty list stand for the empty sequence.
pub open spec fn denotes(entries: Seq<RepairEntry>, s: Seq<Repair>) -> bool
    decreases entries,
{
    if entries.len() == 0 {
        s.len() == 0
    } else {
        match entries.last() {
            RepairEntry::Terminator => s.len() == 0,
            RepairEntry::Repair(r) => s.len() > 0 && s.last() == r && denotes(
                entries.drop_last(),
                s.drop_last(),
            ),
            RepairEntry::Merge(r, alts) => (s.len() > 0 && s.last() == r && denotes(
                entries.drop_last(),
                s.drop_last(),
            )) || exists|k: int|
                0 <= k < alts.len() && last_repair(#[trigger] alts[k]) is Some && denotes(alts[k], s),
        }
    }
}

/// The list of entries yields the repair sequence `s`: it stands for `s`, and it holds at
/// least one repair.
pub open spec fn yields(entries: Seq<RepairEntry>, s: Seq<Repair>) -> bool {
    denotes(entries, s) && last_repair(entries) is Some
}

/// The mathematical content of a search node.
pub struct NodeView {
    /// The parse stack.
    pub stack: Seq<StIdx>,
    /// The position in the input.
    pub laidx: int,
    /// The repairs made so far.
    pub entries: Seq<RepairEntry>,
    /// The cost of the repairs made so far.
    pub cf: int,
}

impl NodeView {
    /// The configuration of the parser in this node.
    pub open spec fn config(self) -> Config {
        Config { stack: self.stack, laidx: self.laidx }
    }

    /// Two nodes can be merged: they have the same stack and position, their repairs end with
    /// the same number of shifts, and either both or neither end with a deletion.
    pub open spec fn compatible(self, other: NodeView) -> bool {
        &&& self.laidx == other.laidx
        &&& self.stack == other.stack
        &&& (last_repair(self.entries) == Some(Repair::Delete)) == (last_repair(other.entries) == Some(
            Repair::Delete,
        ))
        &&& entry_shifts(self.entries) == entry_shifts(other.entries)
    }

    /// The node is a success: its repairs end with enough shifts, or the parser accepts.
    pub open spec fn success(self, m: ParserModel) -> bool {
        entry_shifts(self.entries) >= PARSE_AT_LEAST || m.accepts(self.config())
    }

    /// The repair sequence `s` is one that the search made on the way from `start` to this
    /// node.
    pub open spec fn seq_ok(self, m: ParserModel, start: Config, s: Seq<Repair>) -> bool {
        &&& m.leads(start, s, self.config())
        &&& m.seq_cost(start.laidx, s) == self.cf
        &&& no_insert_after_delete(s)
        &&& trailing_shifts(s) == entry_shifts(self.entries)
        &&& ends_with_delete(s) == (last_repair(self.entries) == Some(Repair::Delete))
    }

    /// The list starts with the terminator and holds no other.
    pub open spec fn entries_wf(self) -> bool {
        &&& self.entries.len() > 0
        &&& self.entries[0] is Terminator
        &&& forall|i: int| 0 < i < self.entries.len() ==> !(#[trigger] self.entries[i] is Terminator)
    }

    /// The node is one that the search from `start` can hold: every sequence that its
    /// repairs stand for leads from `start` to it at its cost.
    pub open spec fn ok(self, m: ParserModel, start: Config) -> bool {
        &&& self.entries_wf()
        &&& 0 <= self.laidx <= m.lexemes.len()
        &&& forall|s: Seq<Repair>| #[trigger] denotes(self.entries, s) ==> self.seq_ok(m, start, s)
    }
}


impl NodeView {
    /// The node with which the search starts: no repairs, no cost.
    pub open spec fn start(c: Config) -> NodeView {
        NodeView { stack: c.stack, laidx: c.laidx, entries: seq![RepairEntry::Terminator], cf: 0 }
    }

    /// The neighbour that inserting token `t` leads to.
    pub open spec fn insert_nbr(self, m: ParserModel, t: TIdx) -> NodeView {
        NodeView {
            stack: m.lr(Some(m.inserted_lexeme(t, self.laidx)), self.laidx, self.stack).stack,
            laidx: self.laidx,
            entries: self.entries.push(RepairEntry::Repair(Repair::InsertTerm(t))),
            cf: self.cf + m.token_cost(t),
        }
    }

    /// Inserting token `t` leads to a neighbour: the token is not the end-of-input token, the
    /// state on top of the stack acts on it, and the run of the simulator on it changes the
    /// stack.
    pub open spec fn can_insert(self, m: ParserModel, t: TIdx) -> bool {
        &&& t != m.grm.eof_token
        &&& self.stack.len() > 0
        &&& m.lr.action(self.stack.last(), t) != Action::Error
        &&& m.lr(Some(m.inserted_lexeme(t, self.laidx)), self.laidx, self.stack).stack != self.stack
    }

    /// The neighbour that deleting the lookahead leads to.
    pub open spec fn delete_nbr(self, m: ParserModel) -> NodeView {
        NodeView {
            stack: self.stack,
            laidx: self.laidx + 1,
            entries: self.entries.push(RepairEntry::Repair(Repair::Delete)),
            cf: self.cf + m.token_cost(m.next_tidx(self.laidx)),
        }
    }

    /// Deleting the lookahead leads to a neighbour: the input has not ended.
    pub open spec fn can_delete(self, m: ParserModel) -> bool {
        0 <= self.laidx < m.lexemes.len()
    }

    /// The node is cheap enough to have neighbours that cost more: whatever token is
    /// inserted or deleted, the cost stays within 16 bits.
    pub open spec fn affordable(self) -> bool {
        self.cf <= COST_CEILING
    }

    /// The neighbour that one run of the simulator on the input leads to: with a shift, the
    /// repairs grow by it; without one, they stay.
    pub open spec fn shift_nbr(self, m: ParserModel) -> NodeView {
        let res = m.lr(None, self.laidx, self.stack);
        NodeView {
            stack: res.stack,
            laidx: if res.shifted {
                self.laidx + 1
            } else {
                self.laidx
            },
            entries: if res.shifted {
                self.entries.push(RepairEntry::Repair(Repair::Shift))
            } else {
                self.entries
            },
            cf: self.cf,
        }
    }

    /// One run of the simulator on the input leads to a neighbour: it changes the stack.
    pub open spec fn can_shift(self, m: ParserModel) -> bool {
        m.lr(None, self.laidx, self.stack).stack != self.stack
    }
}

/// A list that ends with a plain repair stands for the sequences that end with the repair and
/// that the list before it stands for without it.
pub proof fn lemma_denotes_push(entries: Seq<RepairEntry>, r: Repair, s: Seq<Repair>)
    ensures
        denotes(entries.push(RepairEntry::Repair(r)), s) <==> s.len() > 0 && s.last() == r && denotes(
            entries,
            s.drop_last(),
        ),
{
    let e = entries.push(RepairEntry::Repair(r));
    assert(e.drop_last() =~= entries);
    assert(e.last() == RepairEntry::Repair(r));
}

/// The shifts at the end of a list that grew by a plain repair.
pub proof fn lemma_entry_shifts_push(entries: Seq<RepairEntry>, r: Repair)
    ensures
        entry_shifts(entries.push(RepairEntry::Repair(r))) == if r == Repair::Shift {
            entry_shifts(entries) + 1
        } else {
            0
        },
        last_repair(entries.push(RepairEntry::Repair(r))) == Some(r),
{
    let e = entries.push(RepairEntry::Repair(r));
    assert(e.drop_last() =~= entries);
    assert(e.last() == RepairEntry::Repair(r));
}

/// What holds of a sequence that grew by a repair.
pub proof fn lemma_seq_push(m: ParserModel, laidx: int, s: Seq<Repair>, r: Repair)
    ensures
        m.seq_cost(laidx, s.push(r)) == m.seq_cost(laidx, s) + m.repair_cost(laidx + consumed(s), r),
        trailing_shifts(s.push(r)) == if r == Repair::Shift {
            trailing_shifts(s) + 1
        } else {
            0
        },
        ends_with_delete(s.push(r)) == (r == Repair::Delete),
        no_insert_after_delete(s) && !(ends_with_delete(s) && r is InsertTerm) ==> no_insert_after_delete(
            s.push(r),
        ),
{
    let t = s.push(r);
    assert(t.drop_last() =~= s);
    assert(t.last() == r);
    if no_insert_after_delete(s) && !(ends_with_delete(s) && r is InsertTerm) {
        assert forall|i: int| 0 <= i && i + 1 < t.len() && t[i] == Repair::Delete implies !(
        #[trigger] t[i + 1] is InsertTerm) by {
            if i + 1 < s.len() {
                assert(s[i] == t[i]);
                assert(s[i + 1] == t[i + 1]);
            } else {
                assert(s.last() == t[i]);
            }
        }
    }
}

/// The node with which the search starts is one that the search can hold.
pub proof fn lemma_start_ok(m: ParserModel, start: Config)
    requires
        0 <= start.laidx <= m.lexemes.len(),
    ensures
        NodeView::start(start).ok(m, start),
{
    let n = NodeView::start(start);
    assert forall|s: Seq<Repair>| #[trigger] denotes(n.entries, s) implies n.seq_ok(m, start, s) by {
        assert(s =~= Seq::<Repair>::empty());
        assert(m.reaches(start, s, n.config(), 0));
    }
}

/// A neighbour that a repair leads to is one that the search can hold.
pub proof fn lemma_repair_nbr_ok(m: ParserModel, start: Config, n: NodeView, r: Repair, nbr: NodeView)
    requires
        n.ok(m, start),
        m.repair_step(n.config(), r) == Some(nbr.config()),
        nbr.entries == n.entries.push(RepairEntry::Repair(r)),
        nbr.cf == n.cf + m.repair_cost(n.laidx, r),
        r is InsertTerm ==> last_repair(n.entries) != Some(Repair::Delete),
        nbr.laidx <= m.lexemes.len(),
    ensures
        nbr.ok(m, start),
{
    lemma_entry_shifts_push(n.entries, r);
    assert(nbr.entries_wf()) by {
        assert(nbr.entries[0] == n.entries[0]);
        assert forall|i: int| 0 < i < nbr.entries.len() implies !(#[trigger] nbr.entries[i] is Terminator) by {
            if i < n.entries.len() {
                assert(nbr.entries[i] == n.entries[i]);
            }
        }
    }
    assert forall|s: Seq<Repair>| #[trigger] denotes(nbr.entries, s) implies nbr.seq_ok(m, start, s) by {
        lemma_denotes_push(n.entries, r, s);
        let s0 = s.drop_last();
        assert(s0.push(r) =~= s);
        assert(n.seq_ok(m, start, s0));
        lemma_seq_push(m, start.laidx, s0, r);
        let k = choose|k: nat| m.reaches(start, s0, n.config(), k);
        lemma_leads_consumed(m, start, s0, n.config(), k);
        assert(m.reaches(start, s, nbr.config(), k + 1)) by {
            assert(m.repair_step(n.config(), s.last()) == Some(nbr.config()));
        }
    }
}

/// The position that a sequence of successful repairs leads to lies behind the start by the
/// number of lexemes that the repairs pass.
pub proof fn lemma_leads_consumed(m: ParserModel, start: Config, s: Seq<Repair>, c: Config, n: nat)
    requires
        m.reaches(start, s, c, n),
    ensures
        c.laidx == start.laidx + consumed(s),
    decreases n,
{
    if n > 0 {
        if exists|mid: Config|
            m.reaches(start, s, mid, (n - 1) as nat) && #[trigger] m.settle(mid) == Some(c) {
            let mid = choose|mid: Config|
                m.reaches(start, s, mid, (n - 1) as nat) && #[trigger] m.settle(mid) == Some(c);
            lemma_leads_consumed(m, start, s, mid, (n - 1) as nat);
        } else {
            let mid = choose|mid: Config|
                m.reaches(start, s.drop_last(), mid, (n - 1) as nat) && #[trigger] m.repair_step(
                    mid,
                    s.last(),
                ) == Some(c);
            lemma_leads_consumed(m, start, s.drop_last(), mid, (n - 1) as nat);
        }
    }
}

/// The neighbour that reductions without a shift lead to is one that the search can hold.
pub proof fn lemma_settle_nbr_ok(m: ParserModel, start: Config, n: NodeView, nbr: NodeView)
    requires
        n.ok(m, start),
        m.settle(n.config()) == Some(nbr.config()),
        nbr.entries == n.entries,
        nbr.cf == n.cf,
    ensures
        nbr.ok(m, start),
{
    assert forall|s: Seq<Repair>| #[trigger] denotes(nbr.entries, s) implies nbr.seq_ok(m, start, s) by {
        assert(n.seq_ok(m, start, s));
        let k = choose|k: nat| m.reaches(start, s, n.config(), k);
        assert(m.reaches(start, s, nbr.config(), k + 1)) by {
            assert(m.settle(n.config()) == Some(nbr.config()));
        }
    }
}


/// What merging `new` into `kept` makes of the entries of `kept`. Where the two lists are the
/// same, nothing changes. Where `kept` holds no repair, it takes over the list of `new`.
/// Else the newest entry of `kept` becomes a merged entry of the same repair that holds the
/// lists that it held before and, behind them, the list of `new`.
pub open spec fn merged(kept: Seq<RepairEntry>, new: Seq<RepairEntry>, fin: Seq<RepairEntry>) -> bool {
    if kept == new {
        fin == kept
    } else if last_repair(kept) is None {
        fin == new
    } else {
        &&& fin.len() == kept.len()
        &&& fin.drop_last() == kept.drop_last()
        &&& fin.last() matches RepairEntry::Merge(r, alts)
        &&& Some(r) == last_repair(kept)
        &&& alts == held(kept.last()).push(new)
    }
}

/// The lists that were merged into an entry.
pub open spec fn held(e: RepairEntry) -> Seq<Seq<RepairEntry>> {
    match e {
        RepairEntry::Merge(_, alts) => alts,
        _ => Seq::empty(),
    }
}

/// A node into which a compatible node of the same cost was merged is one that the search can
/// hold, and it can be merged with the nodes that it could be merged with before.
pub proof fn lemma_merge_ok(m: ParserModel, start: Config, kept: NodeView, new: NodeView, fin: NodeView)
    requires
        kept.ok(m, start),
        new.ok(m, start),
        kept.compatible(new),
        kept.cf == new.cf,
        fin.stack == kept.stack,
        fin.laidx == kept.laidx,
        fin.cf == kept.cf,
        merged(kept.entries, new.entries, fin.entries),
    ensures
        fin.ok(m, start),
{
    lemma_merge_shape(kept, new, fin);
    if kept.entries == new.entries {
    } else if last_repair(kept.entries) is None {
        assert forall|s: Seq<Repair>| #[trigger] denotes(fin.entries, s) implies fin.seq_ok(m, start, s) by {
            assert(new.seq_ok(m, start, s));
            assert(fin.config() == new.config());
        }
    } else {
        let r = last_repair(kept.entries)->Some_0;
        let alts = fin.entries.last()->Merge_1;
        assert(fin.entries_wf()) by {
            assert(kept.entries.len() >= 2);
            assert(fin.entries[0] == fin.entries.drop_last()[0]);
            assert(kept.entries[0] == kept.entries.drop_last()[0]);
            assert forall|i: int| 0 < i < fin.entries.len() implies !(#[trigger] fin.entries[i] is Terminator) by {
                if i < fin.entries.len() - 1 {
                    assert(fin.entries[i] == fin.entries.drop_last()[i]);
                    assert(kept.entries[i] == kept.entries.drop_last()[i]);
                }
            }
        }
        assert forall|s: Seq<Repair>| #[trigger] denotes(fin.entries, s) implies fin.seq_ok(m, start, s) by {
            if s.len() > 0 && s.last() == r && denotes(fin.entries.drop_last(), s.drop_last()) {
                assert(denotes(kept.entries, s));
                assert(kept.seq_ok(m, start, s));
            } else {
                let before = held(kept.entries.last());
                let k = choose|k: int|
                    0 <= k < alts.len() && last_repair(#[trigger] alts[k]) is Some && denotes(alts[k], s);
                if k < before.len() {
                    assert(alts[k] == before[k]);
                    assert(denotes(kept.entries, s));
                    assert(kept.seq_ok(m, start, s));
                } else {
                    assert(alts[k] == new.entries);
                    assert(new.seq_ok(m, start, s));
                    assert(fin.config() == new.config());
                }
            }
        }
    }
}

/// Merging leaves the shape by which nodes are compared as it was.
pub proof fn lemma_merge_shape(kept: NodeView, new: NodeView, fin: NodeView)
    requires
        kept.compatible(new),
        fin.stack == kept.stack,
        fin.laidx == kept.laidx,
        merged(kept.entries, new.entries, fin.entries),
    ensures
        entry_shifts(fin.entries) == entry_shifts(kept.entries),
        (last_repair(fin.entries) == Some(Repair::Delete)) == (last_repair(kept.entries) == Some(Repair::Delete)),
        forall|other: NodeView| kept.compatible(other) == fin.compatible(other),
{
    if kept.entries == new.entries {
    } else if last_repair(kept.entries) is None {
    } else {
        assert(fin.entries.last().repair() == kept.entries.last().repair());
    }
}

impl NodeView {
    /// `nbr` is a neighbour of this node: one that an insertion leads to, unless the node's
    /// newest repair is a deletion; the one that the deletion of the lookahead leads to; or
    /// the one that a run of the simulator on the input leads to. With `explore_all` unset,
    /// only the last of these counts; so it is for a node whose cost is above
    /// [`COST_CEILING`].
    pub open spec fn is_nbr(self, m: ParserModel, explore_all: bool, nbr: NodeView) -> bool {
        ||| explore_all && self.affordable() && last_repair(self.entries) != Some(Repair::Delete) && exists|
            t: TIdx,
        |
            self.can_insert(m, t) && nbr == #[trigger] self.insert_nbr(m, t)
        ||| explore_all && self.affordable() && self.can_delete(m) && nbr == self.delete_nbr(m)
        ||| self.can_shift(m) && nbr == self.shift_nbr(m)
    }
}

/// The simulator shifts only where it is allowed to.
pub proof fn lemma_sim_shifted(m: ParserModel, stack: Seq<StIdx>, tok: TIdx, can_shift: bool, fuel: nat)
    requires
        m.sim(stack, tok, can_shift, fuel).shifted,
    ensures
        can_shift,
    decreases fuel,
{
    if stack.len() > 0 {
        match m.lr.action(stack.last(), tok) {
            Action::Reduce(p) => {
                match m.reduce(stack, p) {
                    Some(next) => {
                        if fuel > 0 {
                            lemma_sim_shifted(m, next, tok, can_shift, (fuel - 1) as nat);
                        }
                    },
                    None => {},
                }
            },
            _ => {},
        }
    }
}

/// A neighbour of a node that the search can hold is one that the search can hold, and it
/// costs no less than the node.
pub proof fn lemma_nbr_ok(m: ParserModel, start: Config, n: NodeView, explore_all: bool, nbr: NodeView)
    requires
        n.ok(m, start),
        n.is_nbr(m, explore_all, nbr),
    ensures
        nbr.ok(m, start),
        nbr.cf >= n.cf,
{
    if explore_all && last_repair(n.entries) != Some(Repair::Delete) && exists|t: TIdx|
        n.can_insert(m, t) && nbr == #[trigger] n.insert_nbr(m, t) {
        let t = choose|t: TIdx| n.can_insert(m, t) && nbr == #[trigger] n.insert_nbr(m, t);
        lemma_repair_nbr_ok(m, start, n, Repair::InsertTerm(t), nbr);
    } else if explore_all && n.can_delete(m) && nbr == n.delete_nbr(m) {
        lemma_repair_nbr_ok(m, start, n, Repair::Delete, nbr);
    } else {
        let res = m.lr(None, n.laidx, n.stack);
        if res.shifted {
            lemma_sim_shifted(
                m,
                n.stack,
                m.lookahead(None, n.laidx).tok_id,
                m.can_shift(None, n.laidx),
                REDUCE_LIMIT as nat,
            );
            lemma_repair_nbr_ok(m, start, n, Repair::Shift, nbr);
        } else {
            lemma_settle_nbr_ok(m, start, n, nbr);
        }
    }
}


impl ParserModel {
    /// The configuration after one reported repair is replayed: an insertion runs the
    /// simulator on the inserted token, a deletion passes one lexeme, and a shift runs the
    /// simulator on the input.
    pub open spec fn apply_one(self, c: Config, r: ParseRepair) -> Config {
        match r {
            ParseRepair::Insert(t) => Config {
                stack: self.lr(Some(self.inserted_lexeme(t, c.laidx)), c.laidx, c.stack).stack,
                laidx: c.laidx,
            },
            ParseRepair::Delete(_) => Config { stack: c.stack, laidx: c.laidx + 1 },
            ParseRepair::Shift(_) => {
                let res = self.lr(None, c.laidx, c.stack);
                Config {
                    stack: res.stack,
                    laidx: if res.shifted {
                        c.laidx + 1
                    } else {
                        c.laidx
                    },
                }
            },
        }
    }

    /// The configuration after the reported repairs `rs` are replayed in their order.
    pub open spec fn apply(self, c: Config, rs: Seq<ParseRepair>) -> Config
        decreases rs.len(),
    {
        if rs.len() == 0 {
            c
        } else {
            self.apply_one(self.apply(c, rs.drop_last()), rs.last())
        }
    }

    /// The parse trees after one reported repair is replayed in configuration `c`: an
    /// insertion and a shift add what the simulator adds, a deletion adds nothing.
    pub open spec fn apply_trees_one(self, c: Config, trees: Seq<Tree>, r: ParseRepair) -> Seq<Tree> {
        match r {
            ParseRepair::Insert(t) => self.lr_trees(
                Some(self.inserted_lexeme(t, c.laidx)),
                c.laidx,
                c.stack,
                trees,
            ),
            ParseRepair::Delete(_) => trees,
            ParseRepair::Shift(_) => self.lr_trees(None, c.laidx, c.stack, trees),
        }
    }

    /// The parse trees after the reported repairs `rs` are replayed from configuration `c`.
    pub open spec fn apply_trees(self, c: Config, trees: Seq<Tree>, rs: Seq<ParseRepair>) -> Seq<Tree>
        decreases rs.len(),
    {
        if rs.len() == 0 {
            trees
        } else {
            self.apply_trees_one(
                self.apply(c, rs.drop_last()),
                self.apply_trees(c, trees, rs.drop_last()),
                rs.last(),
            )
        }
    }

    /// How far the parser gets from configuration `c` on the input as it is: the position of
    /// the first lexeme that it cannot shift.
    pub open spec fn far(self, c: Config) -> int
        decreases self.lexemes.len() - c.laidx,
    {
        let res = self.lr(None, c.laidx, c.stack);
        if res.shifted && c.laidx < self.lexemes.len() {
            self.far(Config { stack: res.stack, laidx: c.laidx + 1 })
        } else {
            c.laidx
        }
    }

    /// The rank of a reported repair sequence: how far the parser gets after the sequence is
    /// replayed from `start`.
    pub open spec fn score(self, start: Config, rs: Seq<ParseRepair>) -> int {
        self.far(self.apply(start, rs))
    }
}

/// A reported repair sequence without the shifts at its end.
pub open spec fn without_trailing_shifts(rs: Seq<ParseRepair>) -> Seq<ParseRepair>
    decreases rs.len(),
{
    if rs.len() > 0 && rs.last() is Shift {
        without_trailing_shifts(rs.drop_last())
    } else {
        rs
    }
}

/// In `rs` no insertion stands directly behind a deletion.
pub open spec fn no_insert_behind_delete(rs: Seq<ParseRepair>) -> bool {
    forall|i: int| 0 <= i && i + 1 < rs.len() && rs[i] is Delete ==> !(#[trigger] rs[i + 1] is Insert)
}


/// How many lexemes of the input the reported repairs of `rs` pass: one for each deletion and
/// shift.
pub open spec fn passes(rs: Seq<ParseRepair>) -> int
    decreases rs.len(),
{
    if rs.len() == 0 {
        0
    } else {
        passes(rs.drop_last()) + if rs.last() is Insert {
            0int
        } else {
            1int
        }
    }
}

/// The first repairs of a sequence pass no more lexemes than the sequence.
pub proof fn lemma_passes_take(rs: Seq<ParseRepair>, i: int)
    requires
        0 <= i <= rs.len(),
    ensures
        0 <= passes(rs.take(i)) <= passes(rs),
    decreases rs.len(),
{
    if i == rs.len() {
        assert(rs.take(i) =~= rs);
        if rs.len() > 0 {
            lemma_passes_take(rs.drop_last(), i - 1);
        }
    } else {
        lemma_passes_take(rs.drop_last(), i);
        assert(rs.drop_last().take(i) =~= rs.take(i));
    }
}

/// The first repairs of a sequence pass no more lexemes than the sequence.
pub proof fn lemma_consumed_take(s: Seq<Repair>, i: int)
    requires
        0 <= i <= s.len(),
    ensures
        0 <= consumed(s.take(i)) <= consumed(s),
    decreases s.len(),
{
    if i == s.len() {
        assert(s.take(i) =~= s);
        if s.len() > 0 {
            lemma_consumed_take(s.drop_last(), i - 1);
        }
    } else {
        lemma_consumed_take(s.drop_last(), i);
        assert(s.drop_last().take(i) =~= s.take(i));
    }
}

/// The reported form of a repair sequence has a repair of the same kind for each repair, and
/// costs and passes what the sequence costs and passes.
pub proof fn lemma_parse_repairs(m: ParserModel, laidx: int, s: Seq<Repair>)
    ensures
        m.parse_repairs(laidx, s).len() == s.len(),
        forall|i: int|
            0 <= i < s.len() ==> (#[trigger] m.parse_repairs(laidx, s)[i] is Insert <==> s[i] is InsertTerm) && (
            m.parse_repairs(laidx, s)[i] is Delete <==> s[i] == Repair::Delete) && (m.parse_repairs(
                laidx,
                s,
            )[i] is Shift <==> s[i] == Repair::Shift),
        m.parse_repairs_cost(m.parse_repairs(laidx, s)) == m.seq_cost(laidx, s),
        passes(m.parse_repairs(laidx, s)) == consumed(s),
        no_insert_after_delete(s) ==> no_insert_behind_delete(m.parse_repairs(laidx, s)),
    decreases s.len(),
{
    if s.len() > 0 {
        let s0 = s.drop_last();
        lemma_parse_repairs(m, laidx, s0);
        let rs = m.parse_repairs(laidx, s);
        let rs0 = m.parse_repairs(laidx, s0);
        assert(rs.drop_last() =~= rs0);
        assert forall|i: int| 0 <= i < s.len() implies (#[trigger] rs[i] is Insert <==> s[i] is InsertTerm) && (
        rs[i] is Delete <==> s[i] == Repair::Delete) && (rs[i] is Shift <==> s[i] == Repair::Shift) by {
            if i < s0.len() {
                assert(rs[i] == rs0[i]);
                assert(s[i] == s0[i]);
            }
        }
    }
}

/// A reported repair sequence without the shifts at its end consists of the first repairs of
/// the sequence; it costs the same, and passes no more lexemes.
pub proof fn lemma_without_trailing_shifts(m: ParserModel, rs: Seq<ParseRepair>)
    ensures
        without_trailing_shifts(rs).len() <= rs.len(),
        without_trailing_shifts(rs) == rs.take(without_trailing_shifts(rs).len() as int),
        m.parse_repairs_cost(without_trailing_shifts(rs)) == m.parse_repairs_cost(rs),
        0 <= passes(without_trailing_shifts(rs)) <= passes(rs),
        no_insert_behind_delete(rs) ==> no_insert_behind_delete(without_trailing_shifts(rs)),
        without_trailing_shifts(rs).len() > 0 ==> !(without_trailing_shifts(rs).last() is Shift),
    decreases rs.len(),
{
    if rs.len() > 0 && rs.last() is Shift {
        let rs0 = rs.drop_last();
        lemma_without_trailing_shifts(m, rs0);
        let k = without_trailing_shifts(rs0).len() as int;
        assert(rs0.take(k) =~= rs.take(k));
        if no_insert_behind_delete(rs) {
            assert forall|i: int| 0 <= i && i + 1 < rs0.len() && rs0[i] is Delete implies !(
            #[trigger] rs0[i + 1] is Insert) by {
                assert(rs[i] == rs0[i]);
                assert(rs[i + 1] == rs0[i + 1]);
            }
        }
    } else {
        assert(rs.take(rs.len() as int) =~= rs);
        lemma_passes_take(rs, rs.len() as int);
    }
}

impl ParserModel {
    /// The reported repair sequence `rs` is that of a sequence of successful repairs of cost
    /// `cost` that leads from `start` to a configuration in which the parser accepts, or that
    /// ends with enough shifts. In the sequence no insertion stands directly behind a
    /// deletion.
    pub open spec fn candidate(self, start: Config, cost: int, rs: Seq<ParseRepair>) -> bool {
        exists|s: Seq<Repair>, c: Config|
            #![trigger self.leads(start, s, c)]
            self.leads(start, s, c) && (trailing_shifts(s) >= PARSE_AT_LEAST || self.accepts(c))
                && self.seq_cost(start.laidx, s) == cost && no_insert_after_delete(s) && c.laidx
                <= self.lexemes.len() && rs == self.parse_repairs(start.laidx, s)
    }

    /// The reported repair sequence `rs` is a candidate without the shifts at its end.
    pub open spec fn repair_of(self, start: Config, cost: int, rs: Seq<ParseRepair>) -> bool {
        exists|full: Seq<ParseRepair>|
            #![trigger self.candidate(start, cost, full)]
            self.candidate(start, cost, full) && rs == without_trailing_shifts(full)
    }
}

/// What holds of a candidate: it passes no lexeme behind the input, it costs what the repairs
/// cost, and no insertion stands directly behind a deletion in it.
pub proof fn lemma_candidate(m: ParserModel, start: Config, cost: int, rs: Seq<ParseRepair>)
    requires
        m.candidate(start, cost, rs),
    ensures
        start.laidx + passes(rs) <= m.lexemes.len(),
        m.parse_repairs_cost(rs) == cost,
        no_insert_behind_delete(rs),
{
    let (s, c) = choose|s: Seq<Repair>, c: Config|
        #![trigger m.leads(start, s, c)]
        m.leads(start, s, c) && (trailing_shifts(s) >= PARSE_AT_LEAST || m.accepts(c)) && m.seq_cost(
            start.laidx,
            s,
        ) == cost && no_insert_after_delete(s) && c.laidx <= m.lexemes.len() && rs == m.parse_repairs(
            start.laidx,
            s,
        );
    let n = choose|n: nat| m.reaches(start, s, c, n);
    lemma_leads_consumed(m, start, s, c, n);
    lemma_parse_repairs(m, start.laidx, s);
}

/// What holds of a repair sequence that recovery returns: it passes no lexeme behind the
/// input, it costs what the repairs of its candidate cost, no insertion stands directly behind
/// a deletion in it, and it does not end with a shift.
pub proof fn lemma_repair_of(m: ParserModel, start: Config, cost: int, rs: Seq<ParseRepair>)
    requires
        m.repair_of(start, cost, rs),
    ensures
        start.laidx + passes(rs) <= m.lexemes.len(),
        passes(rs) >= 0,
        m.parse_repairs_cost(rs) == cost,
        no_insert_behind_delete(rs),
        rs.len() > 0 ==> !(rs.last() is Shift),
{
    let full = choose|full: Seq<ParseRepair>|
        #![trigger m.candidate(start, cost, full)]
        m.candidate(start, cost, full) && rs == without_trailing_shifts(full);
    lemma_candidate(m, start, cost, full);
    lemma_without_trailing_shifts(m, full);
}


/// Replaying repairs never moves the position back.
pub proof fn lemma_apply_laidx(m: ParserModel, c: Config, rs: Seq<ParseRepair>)
    ensures
        m.apply(c, rs).laidx >= c.laidx,
    decreases rs.len(),
{
    if rs.len() > 0 {
        lemma_apply_laidx(m, c, rs.drop_last());
    }
}


impl ParserModel {
    /// The search from `start` reaches the node `nv` in `n` steps, each from a node to one of
    /// its neighbours.
    pub open spec fn search_reaches(self, start: NodeView, nv: NodeView, n: nat) -> bool
        decreases n,
    {
        if n == 0 {
            nv == start
        } else {
            exists|prev: NodeView|
                self.search_reaches(start, prev, (n - 1) as nat) && #[trigger] prev.is_nbr(self, true, nv)
        }
    }

    /// No success node that the search from `start` reaches costs less than `cost`.
    pub open spec fn cheapest(self, start: NodeView, cost: int) -> bool {
        forall|nv: NodeView, n: nat| #[trigger] self.search_reaches(start, nv, n) && nv.success(self) ==> nv.cf >= cost
    }
}

impl NodeView {
    /// This node is like `other` in the search: the two can be merged, and cost the same.
    pub open spec fn alike(self, other: NodeView) -> bool {
        self.compatible(other) && self.cf == other.cf
    }

    /// This node yields every repair sequence that `other` yields; and if `other` holds no
    /// repair, the two hold the same list.
    pub open spec fn holds_all(self, other: NodeView) -> bool {
        &&& forall|s: Seq<Repair>| #[trigger] yields(other.entries, s) ==> yields(self.entries, s)
        &&& last_repair(other.entries) is None ==> self.entries == other.entries
    }

    /// This node stands for `other` in the search: the two can be merged, and cost the same.
    /// With `strict` set, this node also holds what `other` holds: see
    /// [`holds_all`](Self::holds_all).
    pub open spec fn stands_for(self, strict: bool, other: NodeView) -> bool {
        self.alike(other) && (strict ==> self.holds_all(other))
    }
}

impl ParserModel {
    /// The search from `start` reaches a node that `nv` stands for.
    pub open spec fn reached_by(self, start: NodeView, nv: NodeView) -> bool {
        exists|x: NodeView, n: nat| #[trigger] self.search_reaches(start, x, n) && nv.alike(x)
    }

    /// The search from `start` reaches a success node of cost `cost`.
    pub open spec fn attained(self, start: NodeView, cost: int) -> bool {
        exists|x: NodeView, n: nat| #[trigger] self.search_reaches(start, x, n) && x.success(self) && x.cf == cost
    }
}

/// A neighbour of a node that stands for a node that the search reaches stands for such a
/// node.
pub proof fn lemma_reached_nbr(m: ParserModel, start: NodeView, n: NodeView, explore_all: bool, nbr: NodeView)
    requires
        m.reached_by(start, n),
        n.is_nbr(m, explore_all, nbr),
    ensures
        m.reached_by(start, nbr),
{
    let (x, k) = choose|x: NodeView, k: nat| #[trigger] m.search_reaches(start, x, k) && n.alike(x);
    assert(x.stands_for(false, n));
    lemma_stands_for(m, false, x, n);
    assert(n.is_nbr(m, true, nbr));
    let na = choose|na: NodeView| #[trigger] x.is_nbr(m, true, na) && na.stands_for(false, nbr);
    assert(m.search_reaches(start, na, k + 1));
    assert(nbr.alike(na));
}

/// Where a success node stands for a node that the search reaches, the search reaches a
/// success node of its cost.
pub proof fn lemma_reached_success(m: ParserModel, start: NodeView, n: NodeView)
    requires
        m.reached_by(start, n),
        n.success(m),
    ensures
        m.attained(start, n.cf),
{
    let (x, k) = choose|x: NodeView, k: nat| #[trigger] m.search_reaches(start, x, k) && n.alike(x);
    assert(n.stands_for(false, x));
    lemma_stands_for(m, false, n, x);
    assert(m.search_reaches(start, x, k) && x.success(m) && x.cf == n.cf);
}

/// A node into which another was merged stands for what it stood for before.
pub proof fn lemma_reached_merged(m: ParserModel, start: NodeView, kept: NodeView, new: NodeView, fin: NodeView)
    requires
        kept.compatible(new),
        fin.stack == kept.stack,
        fin.laidx == kept.laidx,
        fin.cf == kept.cf,
        merged(kept.entries, new.entries, fin.entries),
        m.reached_by(start, kept),
    ensures
        m.reached_by(start, fin),
{
    let (x, k) = choose|x: NodeView, k: nat| #[trigger] m.search_reaches(start, x, k) && kept.alike(x);
    lemma_merge_shape(kept, new, fin);
    assert(fin.alike(x));
}

/// One of the nodes of `set` stands for `nv`.
pub open spec fn stood_for(strict: bool, set: Set<NodeView>, nv: NodeView) -> bool {
    exists|r: NodeView| set.contains(r) && #[trigger] r.stands_for(strict, nv)
}

/// A node that stands for another is a success exactly if the other is, and has a neighbour
/// that stands for each neighbour of the other.
pub proof fn lemma_stands_for(m: ParserModel, strict: bool, a: NodeView, b: NodeView)
    requires
        a.stands_for(strict, b),
    ensures
        a.success(m) == b.success(m),
        forall|nb: NodeView|
            #[trigger] b.is_nbr(m, true, nb) ==> exists|na: NodeView|
                #[trigger] a.is_nbr(m, true, na) && na.stands_for(strict, nb),
{
    assert forall|nb: NodeView| #[trigger] b.is_nbr(m, true, nb) implies exists|na: NodeView|
        #[trigger] a.is_nbr(m, true, na) && na.stands_for(strict, nb) by {
        if b.affordable() && last_repair(b.entries) != Some(Repair::Delete) && exists|t: TIdx|
            b.can_insert(m, t) && nb == #[trigger] b.insert_nbr(m, t) {
            let t = choose|t: TIdx| b.can_insert(m, t) && nb == #[trigger] b.insert_nbr(m, t);
            let na = a.insert_nbr(m, t);
            lemma_entry_shifts_push(a.entries, Repair::InsertTerm(t));
            lemma_entry_shifts_push(b.entries, Repair::InsertTerm(t));
            assert(a.can_insert(m, t));
            if strict {
                lemma_holds_all_push(a, b, Repair::InsertTerm(t), na, nb);
            }
            assert(a.is_nbr(m, true, na) && na.stands_for(strict, nb));
        } else if b.affordable() && b.can_delete(m) && nb == b.delete_nbr(m) {
            let na = a.delete_nbr(m);
            lemma_entry_shifts_push(a.entries, Repair::Delete);
            lemma_entry_shifts_push(b.entries, Repair::Delete);
            if strict {
                lemma_holds_all_push(a, b, Repair::Delete, na, nb);
            }
            assert(a.is_nbr(m, true, na) && na.stands_for(strict, nb));
        } else {
            let na = a.shift_nbr(m);
            lemma_entry_shifts_push(a.entries, Repair::Shift);
            lemma_entry_shifts_push(b.entries, Repair::Shift);
            if strict && m.lr(None, b.laidx, b.stack).shifted {
                lemma_holds_all_push(a, b, Repair::Shift, na, nb);
            }
            assert(a.is_nbr(m, true, na) && na.stands_for(strict, nb));
        }
    }
}

/// Where a node holds what another holds, so it is with the same repair behind both.
pub proof fn lemma_holds_all_push(a: NodeView, b: NodeView, r: Repair, na: NodeView, nb: NodeView)
    requires
        a.holds_all(b),
        na.entries == a.entries.push(RepairEntry::Repair(r)),
        nb.entries == b.entries.push(RepairEntry::Repair(r)),
    ensures
        na.holds_all(nb),
{
    assert forall|s: Seq<Repair>| #[trigger] yields(nb.entries, s) implies yields(na.entries, s) by {
        lemma_denotes_push(b.entries, r, s);
        lemma_denotes_push(a.entries, r, s);
        if last_repair(b.entries) is Some {
            assert(yields(b.entries, s.drop_last()));
            assert(yields(a.entries, s.drop_last()));
        }
    }
}

/// Two lists can be merged without a loss: both hold a repair, or they are the same list.
pub open spec fn can_merge(kept: Seq<RepairEntry>, new: Seq<RepairEntry>) -> bool {
    (last_repair(kept) is Some && last_repair(new) is Some) || kept == new
}

/// A node into which another was merged stands for the other, and for what it stood for
/// before.
pub proof fn lemma_merge_stands(strict: bool, kept: NodeView, new: NodeView, fin: NodeView)
    requires
        kept.compatible(new),
        kept.cf == new.cf,
        fin.stack == kept.stack,
        fin.laidx == kept.laidx,
        fin.cf == kept.cf,
        merged(kept.entries, new.entries, fin.entries),
        strict ==> can_merge(kept.entries, new.entries),
    ensures
        fin.stands_for(strict, new),
        forall|x: NodeView| kept.stands_for(strict, x) ==> #[trigger] fin.stands_for(strict, x),
{
    lemma_merge_shape(kept, new, fin);
    if strict && kept.entries != new.entries {
        let alts = fin.entries.last()->Merge_1;
        let r = last_repair(kept.entries)->Some_0;
        assert forall|s: Seq<Repair>| #[trigger] yields(new.entries, s) implies yields(fin.entries, s) by {
            assert(alts[alts.len() - 1] == new.entries);
        }
        assert forall|s: Seq<Repair>| #[trigger] yields(kept.entries, s) implies yields(fin.entries, s) by {
            if s.len() > 0 && s.last() == r && denotes(kept.entries.drop_last(), s.drop_last()) {
            } else {
                let before = held(kept.entries.last());
                let k = choose|k: int|
                    0 <= k < before.len() && last_repair(#[trigger] before[k]) is Some && denotes(before[k], s);
                assert(alts[k] == before[k]);
            }
        }
    }
}

impl NodeView {
    /// What holds of the costs of the nodes of a search from `base` in which insertions and
    /// deletions cost something: no node costs less than `base`; a node without a repair holds
    /// the list of `base` and costs what `base` costs; and where `base` holds no repair, a node
    /// whose newest repair is an insertion or a deletion costs more than `base`.
    pub open spec fn tidy(self, base: NodeView) -> bool {
        &&& self.cf >= base.cf
        &&& last_repair(self.entries) is None ==> self.entries == base.entries && self.cf == base.cf
        &&& last_repair(base.entries) is None && last_repair(self.entries) is Some && entry_shifts(self.entries) == 0
            ==> self.cf > base.cf
    }
}

/// Where insertions and deletions cost something, the costs of a neighbour are as those of
/// the node.
pub proof fn lemma_tidy_nbr(m: ParserModel, base: NodeView, n: NodeView, explore_all: bool, nbr: NodeView)
    requires
        m.repairs_cost(),
        n.tidy(base),
        n.is_nbr(m, explore_all, nbr),
    ensures
        nbr.tidy(base),
{
    assert(n.is_nbr(m, true, nbr));
    let res = m.lr(None, n.laidx, n.stack);
    if n.can_shift(m) && nbr == n.shift_nbr(m) {
        if res.shifted {
            lemma_entry_shifts_push(n.entries, Repair::Shift);
        }
    } else {
        let sn = n.shift_nbr(m);
        assert(nbr.entries.len() == n.entries.len() + 1);
        assert(nbr.entries.last().repair() != Some(Repair::Shift));
        if res.shifted {
            assert(sn.entries.last() == RepairEntry::Repair(Repair::Shift));
        }
        assert(nbr.entries != sn.entries);
        assert(!n.is_nbr(m, false, nbr));
        assert(nbr.cf > n.cf);
    }
}

/// Where insertions and deletions cost something, two nodes of a cost that can be merged
/// can be merged without a loss, and the costs of the merged node are as they were.
pub proof fn lemma_tidy_merged(base: NodeView, kept: NodeView, new: NodeView, fin: NodeView)
    requires
        kept.tidy(base),
        new.tidy(base),
        kept.compatible(new),
        kept.cf == new.cf,
        fin.stack == kept.stack,
        fin.laidx == kept.laidx,
        fin.cf == kept.cf,
        merged(kept.entries, new.entries, fin.entries),
    ensures
        can_merge(kept.entries, new.entries),
        fin.tidy(base),
{
    lemma_merge_shape(kept, new, fin);
}

impl ParserModel {
    /// One of the nodes `found` yields every repair sequence of every success node of cost
    /// `cost` that the search from `start` reaches without passing a success node.
    pub open spec fn all_yielded(self, start: NodeView, cost: int, found: Set<NodeView>) -> bool {
        forall|nv: NodeView, n: nat, s: Seq<Repair>|
            #[trigger] self.search_reaches_first(start, nv, n) && nv.success(self) && nv.cf == cost
                && #[trigger] yields(nv.entries, s) ==> exists|f: NodeView|
                found.contains(f) && #[trigger] yields(f.entries, s)
    }
}

impl ParserModel {
    /// The search from `base` reaches, without passing a success node, a node like `nv` whose
    /// list stands for the repair sequence `s`, and holds a repair exactly if that of `nv`
    /// does.
    pub open spec fn first_denotes(self, base: NodeView, nv: NodeView, s: Seq<Repair>) -> bool {
        exists|x: NodeView, k: nat|
            #[trigger] self.search_reaches_first(base, x, k) && nv.alike(x) && denotes(x.entries, s) && (
            last_repair(x.entries) is Some <==> last_repair(nv.entries) is Some)
    }

    /// The node `nv` holds nothing but what the search from `base` makes: for every repair
    /// sequence that its list stands for, the search reaches, without passing a success node,
    /// a node like it whose list stands for the sequence.
    pub open spec fn sound(self, base: NodeView, nv: NodeView) -> bool {
        forall|s: Seq<Repair>| #[trigger] denotes(nv.entries, s) ==> self.first_denotes(base, nv, s)
    }

    /// The repair sequence `s` is one that leads the search from `start` to a success node of
    /// cost `cost`, without passing a success node before.
    pub open spec fn best_seq(self, start: NodeView, cost: int, s: Seq<Repair>) -> bool {
        exists|x: NodeView, k: nat|
            #[trigger] self.search_reaches_first(start, x, k) && x.success(self) && x.cf == cost && yields(
                x.entries,
                s,
            )
    }

    /// The nodes `found` yield exactly the repair sequences that lead the search from `start`
    /// to a success node of cost `cost`, without passing a success node before.
    pub open spec fn found_exact(self, start: NodeView, cost: int, found: Set<NodeView>) -> bool {
        forall|s: Seq<Repair>|
            (exists|f: NodeView| found.contains(f) && #[trigger] yields(f.entries, s)) <==> #[trigger] self.best_seq(
                start,
                cost,
                s,
            )
    }
}

impl ParserModel {
    /// `full` is the reported form of a repair sequence that leads the search from `start`,
    /// with no repairs made and no cost, to a success node of cost `cost`, without passing a
    /// success node before.
    pub open spec fn owed_full(self, start: Config, cost: int, full: Seq<ParseRepair>) -> bool {
        exists|s: Seq<Repair>|
            #[trigger] self.best_seq(NodeView::start(start), cost, s) && full == self.parse_repairs(start.laidx, s)
    }

    /// Of these sequences, `full` is one after which the parser gets furthest.
    pub open spec fn is_best_full(self, start: Config, cost: int, full: Seq<ParseRepair>) -> bool {
        &&& self.owed_full(start, cost, full)
        &&& forall|other: Seq<ParseRepair>| #[trigger]
            self.owed_full(start, cost, other) ==> self.score(start, other) <= self.score(start, full)
    }

    /// `rs` is a repair that recovery from `start` owes, where `cost` is the lowest cost of a
    /// success node: a repair sequence that leads the search to a first success node of that
    /// cost, after which the parser gets furthest, as the parser reports it, without the shifts
    /// at its end.
    pub open spec fn is_repair(self, start: Config, cost: int, rs: Seq<ParseRepair>) -> bool {
        exists|full: Seq<ParseRepair>| #[trigger] self.is_best_full(start, cost, full) && rs == without_trailing_shifts(full)
    }
}

/// A node that the search reaches from a node, by a repair, holds nothing but what the search
/// makes.
proof fn lemma_first_push(
    m: ParserModel,
    base: NodeView,
    n: NodeView,
    nbr: NodeView,
    x: NodeView,
    k: nat,
    nx: NodeView,
    r: Repair,
    s: Seq<Repair>,
)
    requires
        m.search_reaches_first(base, x, k),
        !x.success(m),
        x.is_nbr(m, true, nx),
        nbr.alike(nx),
        nbr.entries == n.entries.push(RepairEntry::Repair(r)),
        nx.entries == x.entries.push(RepairEntry::Repair(r)),
        s.len() > 0,
        s.last() == r,
        denotes(x.entries, s.drop_last()),
    ensures
        m.first_denotes(base, nbr, s),
{
    assert(m.search_reaches_first(base, nx, k + 1)) by {
        assert(m.search_reaches_first(base, x, ((k + 1) - 1) as nat) && !x.success(m) && x.is_nbr(m, true, nx));
    }
    lemma_denotes_push(x.entries, r, s);
    assert(m.search_reaches_first(base, nx, k + 1) && nbr.alike(nx) && denotes(nx.entries, s));
}

/// A neighbour of a node that is no success node and holds nothing but what the search
/// makes holds nothing but what the search makes.
pub proof fn lemma_sound_nbr(m: ParserModel, base: NodeView, n: NodeView, explore_all: bool, nbr: NodeView)
    requires
        m.sound(base, n),
        !n.success(m),
        n.is_nbr(m, explore_all, nbr),
    ensures
        m.sound(base, nbr),
{
    assert forall|s: Seq<Repair>| #[trigger] denotes(nbr.entries, s) implies m.first_denotes(base, nbr, s) by {
        let res = m.lr(None, n.laidx, n.stack);
        if explore_all && n.affordable() && last_repair(n.entries) != Some(Repair::Delete) && exists|t: TIdx|
            n.can_insert(m, t) && nbr == #[trigger] n.insert_nbr(m, t) {
            let t = choose|t: TIdx| n.can_insert(m, t) && nbr == #[trigger] n.insert_nbr(m, t);
            let r = Repair::InsertTerm(t);
            lemma_denotes_push(n.entries, r, s);
            assert(m.first_denotes(base, n, s.drop_last()));
            let (x, k) = choose|x: NodeView, k: nat|
                #[trigger] m.search_reaches_first(base, x, k) && n.alike(x) && denotes(x.entries, s.drop_last()) && (
                last_repair(x.entries) is Some <==> last_repair(n.entries) is Some);
            let nx = x.insert_nbr(m, t);
            lemma_entry_shifts_push(n.entries, r);
            lemma_entry_shifts_push(x.entries, r);
            assert(x.can_insert(m, t));
            lemma_first_push(m, base, n, nbr, x, k, nx, r, s);
        } else if explore_all && n.affordable() && n.can_delete(m) && nbr == n.delete_nbr(m) {
            let r = Repair::Delete;
            lemma_denotes_push(n.entries, r, s);
            assert(m.first_denotes(base, n, s.drop_last()));
            let (x, k) = choose|x: NodeView, k: nat|
                #[trigger] m.search_reaches_first(base, x, k) && n.alike(x) && denotes(x.entries, s.drop_last()) && (
                last_repair(x.entries) is Some <==> last_repair(n.entries) is Some);
            let nx = x.delete_nbr(m);
            lemma_entry_shifts_push(n.entries, r);
            lemma_entry_shifts_push(x.entries, r);
            lemma_first_push(m, base, n, nbr, x, k, nx, r, s);
        } else if res.shifted {
            let r = Repair::Shift;
            lemma_denotes_push(n.entries, r, s);
            assert(m.first_denotes(base, n, s.drop_last()));
            let (x, k) = choose|x: NodeView, k: nat|
                #[trigger] m.search_reaches_first(base, x, k) && n.alike(x) && denotes(x.entries, s.drop_last()) && (
                last_repair(x.entries) is Some <==> last_repair(n.entries) is Some);
            let nx = x.shift_nbr(m);
            lemma_entry_shifts_push(n.entries, r);
            lemma_entry_shifts_push(x.entries, r);
            lemma_first_push(m, base, n, nbr, x, k, nx, r, s);
        } else {
            assert(nbr.entries == n.entries);
            assert(m.first_denotes(base, n, s));
            let (x, k) = choose|x: NodeView, k: nat|
                #[trigger] m.search_reaches_first(base, x, k) && n.alike(x) && denotes(x.entries, s) && (
                last_repair(x.entries) is Some <==> last_repair(n.entries) is Some);
            let nx = x.shift_nbr(m);
            assert(m.search_reaches_first(base, nx, k + 1)) by {
                assert(m.search_reaches_first(base, x, ((k + 1) - 1) as nat) && !x.success(m) && x.is_nbr(m, true, nx));
            }
            assert(m.search_reaches_first(base, nx, k + 1) && nbr.alike(nx) && denotes(nx.entries, s));
        }
    }
}

/// A node into which a node was merged holds nothing but what the search makes, where the
/// two did so.
pub proof fn lemma_sound_merged(m: ParserModel, base: NodeView, kept: NodeView, new: NodeView, fin: NodeView)
    requires
        m.sound(base, kept),
        m.sound(base, new),
        kept.compatible(new),
        kept.cf == new.cf,
        fin.stack == kept.stack,
        fin.laidx == kept.laidx,
        fin.cf == kept.cf,
        merged(kept.entries, new.entries, fin.entries),
    ensures
        m.sound(base, fin),
{
    lemma_merge_shape(kept, new, fin);
    assert forall|s: Seq<Repair>| #[trigger] denotes(fin.entries, s) implies m.first_denotes(base, fin, s) by {
        let from_new = if kept.entries == new.entries {
            false
        } else if last_repair(kept.entries) is None {
            true
        } else {
            let r = last_repair(kept.entries)->Some_0;
            let alts = fin.entries.last()->Merge_1;
            if s.len() > 0 && s.last() == r && denotes(fin.entries.drop_last(), s.drop_last()) {
                assert(denotes(kept.entries, s));
                false
            } else {
                let before = held(kept.entries.last());
                let k = choose|k: int|
                    0 <= k < alts.len() && last_repair(#[trigger] alts[k]) is Some && denotes(alts[k], s);
                if k < before.len() {
                    assert(alts[k] == before[k]);
                    assert(denotes(kept.entries, s));
                    false
                } else {
                    assert(alts[k] == new.entries);
                    true
                }
            }
        };
        if from_new {
            assert(denotes(new.entries, s));
            assert(m.first_denotes(base, new, s));
            let (x, k) = choose|x: NodeView, k: nat|
                #[trigger] m.search_reaches_first(base, x, k) && new.alike(x) && denotes(x.entries, s) && (
                last_repair(x.entries) is Some <==> last_repair(new.entries) is Some);
            assert(m.search_reaches_first(base, x, k) && fin.alike(x) && denotes(x.entries, s));
        } else {
            assert(denotes(kept.entries, s));
            assert(m.first_denotes(base, kept, s));
            let (x, k) = choose|x: NodeView, k: nat|
                #[trigger] m.search_reaches_first(base, x, k) && kept.alike(x) && denotes(x.entries, s) && (
                last_repair(x.entries) is Some <==> last_repair(kept.entries) is Some);
            assert(m.search_reaches_first(base, x, k) && fin.alike(x) && denotes(x.entries, s));
        }
    }
}

/// Where a found node stands for every success node of a cost that the search reaches first,
/// and holds what it holds, and the found nodes are success nodes of that cost that hold
/// nothing but what the search makes, the found nodes yield exactly the repair sequences that
/// lead the search to such a node.
pub proof fn lemma_found_exact(m: ParserModel, start: NodeView, cost: int, found: Set<NodeView>)
    requires
        m.all_found(start, cost, found),
        forall|f: NodeView| found.contains(f) ==> f.success(m) && f.cf == cost && m.sound(start, f),
    ensures
        m.found_exact(start, cost, found),
{
    lemma_all_yielded(m, start, cost, found);
    assert forall|s: Seq<Repair>|
        (exists|f: NodeView| found.contains(f) && #[trigger] yields(f.entries, s)) <==> #[trigger] m.best_seq(
            start,
            cost,
            s,
        ) by {
        if exists|f: NodeView| found.contains(f) && #[trigger] yields(f.entries, s) {
            let f = choose|f: NodeView| found.contains(f) && #[trigger] yields(f.entries, s);
            assert(m.first_denotes(start, f, s));
            let (x, k) = choose|x: NodeView, k: nat|
                #[trigger] m.search_reaches_first(start, x, k) && f.alike(x) && denotes(x.entries, s) && (
                last_repair(x.entries) is Some <==> last_repair(f.entries) is Some);
            lemma_stands_for(m, false, f, x);
            assert(m.search_reaches_first(start, x, k) && x.success(m) && x.cf == cost && yields(x.entries, s));
        }
        if m.best_seq(start, cost, s) {
            let (x, k) = choose|x: NodeView, k: nat|
                #[trigger] m.search_reaches_first(start, x, k) && x.success(m) && x.cf == cost && yields(x.entries, s);
            assert(exists|f: NodeView| found.contains(f) && #[trigger] yields(f.entries, s));
        }
    }
}

/// Where a found node stands for every success node that the search reaches first, and holds
/// what it holds, a found node yields every repair sequence of such a node.
pub proof fn lemma_all_yielded(m: ParserModel, start: NodeView, cost: int, found: Set<NodeView>)
    requires
        m.all_found(start, cost, found),
    ensures
        m.all_yielded(start, cost, found),
{
    assert forall|nv: NodeView, n: nat, s: Seq<Repair>|
        #[trigger] m.search_reaches_first(start, nv, n) && nv.success(m) && nv.cf == cost && #[trigger] yields(
            nv.entries,
            s,
        ) implies exists|f: NodeView| found.contains(f) && #[trigger] yields(f.entries, s) by {
        let f = choose|f: NodeView| found.contains(f) && #[trigger] f.stands_for(true, nv);
        assert(yields(f.entries, s));
    }
}

/// To stand for a node is passed on.
pub proof fn lemma_stands_for_trans(strict: bool, a: NodeView, b: NodeView, c: NodeView)
    requires
        a.stands_for(strict, b),
        b.stands_for(strict, c),
    ensures
        a.stands_for(strict, c),
{
}

/// The search has found the lowest cost of a success node. The nodes that it has expanded
/// are no success nodes, and `todo` holds the nodes that wait; where each of them costs at
/// least `cost`, the start node is among the two, and so is every neighbour of an expanded
/// node, no success node that the search reaches costs less than `cost`.
pub proof fn lemma_cheapest(
    m: ParserModel,
    strict: bool,
    start: NodeView,
    expanded: Set<NodeView>,
    todo: Set<NodeView>,
    cost: int,
)
    requires
        stood_for(strict, expanded, start) || stood_for(strict, todo, start),
        forall|e: NodeView, nv: NodeView|
            expanded.contains(e) && #[trigger] e.is_nbr(m, true, nv) ==> stood_for(strict, expanded, nv) || stood_for(strict, 
                todo,
                nv,
            ),
        forall|x: NodeView| todo.contains(x) ==> x.cf >= cost,
        forall|e: NodeView| expanded.contains(e) ==> !e.success(m),
    ensures
        m.cheapest(start, cost),
{
    assert forall|nv: NodeView, n: nat| #[trigger] m.search_reaches(start, nv, n) && nv.success(m) implies nv.cf
        >= cost by {
        lemma_reached(m, strict, start, expanded, todo, cost, nv, n);
        if stood_for(strict, expanded, nv) {
            let e = choose|e: NodeView| expanded.contains(e) && #[trigger] e.stands_for(strict, nv);
            lemma_stands_for(m, strict, e, nv);
        }
    }
}

/// A node that the search reaches costs at least `cost`, or an expanded node stands for it.
proof fn lemma_reached(
    m: ParserModel,
    strict: bool,
    start: NodeView,
    expanded: Set<NodeView>,
    todo: Set<NodeView>,
    cost: int,
    nv: NodeView,
    n: nat,
)
    requires
        stood_for(strict, expanded, start) || stood_for(strict, todo, start),
        forall|e: NodeView, nv: NodeView|
            expanded.contains(e) && #[trigger] e.is_nbr(m, true, nv) ==> stood_for(strict, expanded, nv) || stood_for(strict, 
                todo,
                nv,
            ),
        forall|x: NodeView| todo.contains(x) ==> x.cf >= cost,
        m.search_reaches(start, nv, n),
    ensures
        nv.cf >= cost || stood_for(strict, expanded, nv),
    decreases n,
{
    if n == 0 {
        if stood_for(strict, todo, start) {
            let x = choose|x: NodeView| todo.contains(x) && #[trigger] x.stands_for(strict, start);
        }
    } else {
        let prev = choose|prev: NodeView|
            m.search_reaches(start, prev, (n - 1) as nat) && #[trigger] prev.is_nbr(m, true, nv);
        lemma_reached(m, strict, start, expanded, todo, cost, prev, (n - 1) as nat);
        if stood_for(strict, expanded, prev) {
            let e = choose|e: NodeView| expanded.contains(e) && #[trigger] e.stands_for(strict, prev);
            lemma_stands_for(m, strict, e, prev);
            let ne = choose|ne: NodeView| #[trigger] e.is_nbr(m, true, ne) && ne.stands_for(strict, nv);
            if stood_for(strict, expanded, ne) {
                let r = choose|r: NodeView| expanded.contains(r) && #[trigger] r.stands_for(strict, ne);
                lemma_stands_for_trans(strict, r, ne, nv);
            } else {
                let x = choose|x: NodeView| todo.contains(x) && #[trigger] x.stands_for(strict, ne);
            }
        } else {
            lemma_nbr_cost(m, prev, nv);
        }
    }
}

/// A neighbour costs no less than the node.
pub proof fn lemma_nbr_cost(m: ParserModel, n: NodeView, nbr: NodeView)
    requires
        n.is_nbr(m, true, nbr),
    ensures
        nbr.cf >= n.cf,
{
}


impl ParserModel {
    /// The search from `start` reaches the node `nv` in `n` steps, each from a node that is
    /// no success to one of its neighbours.
    pub open spec fn search_reaches_first(self, start: NodeView, nv: NodeView, n: nat) -> bool
        decreases n,
    {
        if n == 0 {
            nv == start
        } else {
            exists|prev: NodeView|
                self.search_reaches_first(start, prev, (n - 1) as nat) && !prev.success(self)
                    && #[trigger] prev.is_nbr(self, true, nv)
        }
    }

    /// Insertions and deletions cost something: a neighbour that an insertion or a deletion
    /// leads to costs more than the node.
    pub open spec fn repairs_cost(self) -> bool {
        forall|n: NodeView, nbr: NodeView|
            #[trigger] n.is_nbr(self, true, nbr) && !n.is_nbr(self, false, nbr) ==> nbr.cf > n.cf
    }

    /// Every token that the table acts on, and every token of the input, has a cost, and the
    /// cost is not 0.
    pub open spec fn costs_positive(self) -> bool {
        &&& forall|t: TIdx| t < self.costs.len() ==> #[trigger] self.costs[t as int] >= 1
        &&& forall|st: StIdx, t: TIdx| #[trigger] self.lr.action(st, t) != Action::Error ==> t < self.costs.len()
        &&& forall|i: int| 0 <= i < self.lexemes.len() ==> (#[trigger] self.lexemes[i]).tok_id < self.costs.len()
    }

    /// The search from `start` reaches no success node.
    pub open spec fn hopeless(self, start: NodeView) -> bool {
        forall|nv: NodeView, n: nat| #[trigger] self.search_reaches(start, nv, n) ==> !nv.success(self)
    }

    /// One of the nodes `found` stands for every success node of cost `cost` that the search
    /// from `start` reaches without passing a success node.
    pub open spec fn all_found(self, start: NodeView, cost: int, found: Set<NodeView>) -> bool {
        forall|nv: NodeView, n: nat|
            #[trigger] self.search_reaches_first(start, nv, n) && nv.success(self) && nv.cf == cost ==> stood_for(true, 
                found,
                nv,
            )
    }
}

/// The search has come to its end without a success node. Where the start node and every
/// neighbour of an expanded node have a node among the expanded nodes that stands for them,
/// and the expanded nodes are no success nodes, the search reaches no success node.
pub proof fn lemma_hopeless(m: ParserModel, strict: bool, start: NodeView, expanded: Set<NodeView>)
    requires
        stood_for(strict, expanded, start),
        forall|e: NodeView, nv: NodeView|
            expanded.contains(e) && #[trigger] e.is_nbr(m, true, nv) ==> stood_for(strict, expanded, nv),
        forall|e: NodeView| expanded.contains(e) ==> !e.success(m),
    ensures
        m.hopeless(start),
{
    // No node costs less than nothing at all costs, so an expanded node stands for each.
    assert forall|nv: NodeView, n: nat| #[trigger] m.search_reaches(start, nv, n) implies !nv.success(m) by {
        let none = Set::<NodeView>::empty();
        lemma_reached(m, strict, start, expanded, none, nv.cf + 1, nv, n);
        let e = choose|e: NodeView| expanded.contains(e) && #[trigger] e.stands_for(strict, nv);
        lemma_stands_for(m, strict, e, nv);
    }
}

/// The search has come to the end of the nodes of cost `cost`. Where the start node and
/// every neighbour of an expanded node that costs no more than `cost` have a node among the
/// expanded and the found nodes that stands for them, and the expanded nodes are no success
/// nodes, a found node stands for every success node of that cost that the search reaches
/// first.
pub proof fn lemma_all_found(m: ParserModel, start: NodeView, expanded: Set<NodeView>, found: Set<NodeView>, cost: int)
    requires
        start.cf <= cost ==> stood_for(true, expanded, start) || stood_for(true, found, start),
        forall|e: NodeView, nv: NodeView|
            expanded.contains(e) && #[trigger] e.is_nbr(m, true, nv) && nv.cf <= cost ==> stood_for(true, expanded, nv)
                || stood_for(true, found, nv),
        forall|e: NodeView| expanded.contains(e) ==> !e.success(m),
        forall|f: NodeView| found.contains(f) ==> f.success(m),
    ensures
        m.all_found(start, cost, found),
{
    assert forall|nv: NodeView, n: nat|
        #[trigger] m.search_reaches_first(start, nv, n) && nv.success(m) && nv.cf == cost implies stood_for(true, 
        found,
        nv,
    ) by {
        lemma_reached_first(m, true, start, expanded, found, cost, nv, n);
        if stood_for(true, expanded, nv) {
            let e = choose|e: NodeView| expanded.contains(e) && #[trigger] e.stands_for(true, nv);
            lemma_stands_for(m, true, e, nv);
        }
    }
}

/// A node of cost up to `cost` that the search reaches first has a node among the expanded
/// and the found nodes that stands for it.
proof fn lemma_reached_first(
    m: ParserModel,
    strict: bool,
    start: NodeView,
    expanded: Set<NodeView>,
    found: Set<NodeView>,
    cost: int,
    nv: NodeView,
    n: nat,
)
    requires
        start.cf <= cost ==> stood_for(strict, expanded, start) || stood_for(strict, found, start),
        forall|e: NodeView, nv: NodeView|
            expanded.contains(e) && #[trigger] e.is_nbr(m, true, nv) && nv.cf <= cost ==> stood_for(strict, expanded, nv)
                || stood_for(strict, found, nv),
        forall|f: NodeView| found.contains(f) ==> f.success(m),
        m.search_reaches_first(start, nv, n),
        nv.cf <= cost,
    ensures
        stood_for(strict, expanded, nv) || stood_for(strict, found, nv),
    decreases n,
{
    if n > 0 {
        let prev = choose|prev: NodeView|
            m.search_reaches_first(start, prev, (n - 1) as nat) && !prev.success(m) && #[trigger] prev.is_nbr(
                m,
                true,
                nv,
            );
        lemma_nbr_cost(m, prev, nv);
        lemma_reached_first(m, strict, start, expanded, found, cost, prev, (n - 1) as nat);
        if stood_for(strict, found, prev) {
            let f = choose|f: NodeView| found.contains(f) && #[trigger] f.stands_for(strict, prev);
            lemma_stands_for(m, strict, f, prev);
        } else {
            let e = choose|e: NodeView| expanded.contains(e) && #[trigger] e.stands_for(strict, prev);
            lemma_stands_for(m, strict, e, prev);
            let ne = choose|ne: NodeView| #[trigger] e.is_nbr(m, true, ne) && ne.stands_for(strict, nv);
            if stood_for(strict, expanded, ne) {
                let r = choose|r: NodeView| expanded.contains(r) && #[trigger] r.stands_for(strict, ne);
                lemma_stands_for_trans(strict, r, ne, nv);
            } else {
                let r = choose|r: NodeView| found.contains(r) && #[trigger] r.stands_for(strict, ne);
                lemma_stands_for_trans(strict, r, ne, nv);
            }
        }
    }
}


/// Where no token costs nothing, insertions and deletions cost something.
pub proof fn lemma_repairs_cost(m: ParserModel)
    requires
        m.costs_positive(),
    ensures
        m.repairs_cost(),
{
    assert forall|n: NodeView, nbr: NodeView|
        #[trigger] n.is_nbr(m, true, nbr) && !n.is_nbr(m, false, nbr) implies nbr.cf > n.cf by {
        if last_repair(n.entries) != Some(Repair::Delete) && exists|t: TIdx|
            n.can_insert(m, t) && nbr == #[trigger] n.insert_nbr(m, t) {
            let t = choose|t: TIdx| n.can_insert(m, t) && nbr == #[trigger] n.insert_nbr(m, t);
            assert(m.lr.action(n.stack.last(), t) != Action::Error);
            assert(m.costs[t as int] >= 1);
        } else {
            assert(n.can_delete(m) && nbr == n.delete_nbr(m));
            let t = m.lexemes[n.laidx].tok_id;
            assert(m.costs[t as int] >= 1);
        }
    }
}

} // verus!
