//! When the replay of a repair sequence does what the search did. The search lets the
//! simulator make reductions between two repairs; the replay makes the reductions with the
//! repair that follows them. The two agree for a table in which, on the stacks that the
//! parser can have, the reductions that one lookahead asks for do not keep another lookahead
//! from being shifted or accepted, and a token on which a state acts is shifted in the end.
//!
//! This is what a table has that finds an error before it reduces. It is proved here for
//! the tables that never reduce ([`lemma_shifting_table_agrees`]); it is not proved here for
//! the tables that [`StateTable::new`](crate::statetable::StateTable::new) builds, and it
//! fails for a table in which a state reduces on a token that the state uncovered by the
//! reduction fails on.

use crate::cpctplus::{ParseRepair, Repair};
use crate::grammar::TIdx;
use crate::parser::{ParserModel, REDUCE_LIMIT};
use crate::replay::{
    consumed, lemma_parse_repairs, trailing_shifts, without_trailing_shifts, Config,
};
use crate::statetable::{Action, StIdx};
use vstd::prelude::*;

verus! {

/// The repair sequence `s` without the shifts at its end.
pub open spec fn without_shifts(s: Seq<Repair>) -> Seq<Repair>
    decreases s.len(),
{
    if s.len() > 0 && s.last() == Repair::Shift {
        without_shifts(s.drop_last())
    } else {
        s
    }
}

impl ParserModel {
    /// The stack `to` is what `n` runs of the simulator that end without a shift, each on
    /// some lookahead, leave of the stack `from`.
    pub open spec fn reduced(self, from: Seq<StIdx>, to: Seq<StIdx>, n: nat) -> bool
        decreases n,
    {
        if n == 0 {
            to == from
        } else {
            exists|mid: Seq<StIdx>, tok: TIdx, can: bool|
                self.reduced(from, mid, (n - 1) as nat) && !(#[trigger] self.sim(
                    mid,
                    tok,
                    can,
                    REDUCE_LIMIT as nat,
                )).shifted && self.sim(mid, tok, can, REDUCE_LIMIT as nat).stack == to
        }
    }

    /// The table leads from state `a` to state `b`: by a shift, or after a rule.
    pub open spec fn steps_to(self, a: StIdx, b: StIdx) -> bool {
        (exists|t: TIdx| #[trigger] self.lr.action(a, t) == Action::Shift(b)) || (exists|r: crate::grammar::RIdx| #[trigger]
            self.lr.goto(a, r) == Some(b))
    }

    /// The stack is one that the parser can have: it begins with the start state, and the
    /// table leads from each of its states to the next.
    pub open spec fn stack_valid(self, stack: Seq<StIdx>) -> bool {
        &&& stack.len() > 0
        &&& stack[0] == self.lr.start_state
        &&& forall|i: int| 0 <= i && i + 1 < stack.len() ==> self.steps_to(#[trigger] stack[i], stack[i + 1])
    }

    /// The run of the simulator on `stack` with lookahead `tok` ends where the parser accepts.
    pub open spec fn run_accepts(self, stack: Seq<StIdx>, tok: TIdx, can: bool) -> bool {
        let r = self.sim(stack, tok, can, REDUCE_LIMIT as nat);
        !r.shifted && r.stack.len() > 0 && self.lr.action(r.stack.last(), tok) == Action::Accept
    }

    /// On a stack that the parser can have, a run on a token other than the end-of-input
    /// token on which the state on top acts ends with the shift of the token.
    pub open spec fn acted_on_is_shifted(self) -> bool {
        forall|stack: Seq<StIdx>, tok: TIdx|
            self.stack_valid(stack) && tok != self.grm.eof_token && self.lr.action(stack.last(), tok)
                != Action::Error ==> (#[trigger] self.sim(stack, tok, true, REDUCE_LIMIT as nat)).shifted
    }

    /// Reductions that one lookahead asks for do not change what becomes of another: where
    /// runs without a shift have made the stack `to` of a stack `from` that the parser can
    /// have, a lookahead that is shifted from `to` is shifted from `from`, with the same stack
    /// as the result, and a lookahead with which the parser accepts from `to` is one with
    /// which it accepts from `from`. And a token on which a state acts is shifted in the end:
    /// see [`acted_on_is_shifted`](Self::acted_on_is_shifted).
    pub open spec fn reductions_agree(self) -> bool {
        &&& self.acted_on_is_shifted()
        &&& forall|from: Seq<StIdx>, to: Seq<StIdx>, n: nat, tok: TIdx, can: bool|
            #![trigger self.reduced(from, to, n), self.sim(to, tok, can, REDUCE_LIMIT as nat)]
            self.stack_valid(from) && self.reduced(from, to, n) ==> {
                &&& self.sim(to, tok, can, REDUCE_LIMIT as nat).shifted ==> self.sim(
                    from,
                    tok,
                    can,
                    REDUCE_LIMIT as nat,
                ) == self.sim(to, tok, can, REDUCE_LIMIT as nat)
                &&& self.run_accepts(to, tok, can) ==> self.run_accepts(from, tok, can)
            }
    }

    /// The configuration after one repair is replayed with success: an inserted token and
    /// a lookahead to shift are shifted, and a deletion passes a lexeme of the input.
    pub open spec fn replay_step(self, c: Config, r: Repair) -> Option<Config> {
        match r {
            Repair::InsertTerm(t) => {
                let res = self.lr(Some(self.inserted_lexeme(t, c.laidx)), c.laidx, c.stack);
                if res.shifted {
                    Some(Config { stack: res.stack, laidx: c.laidx })
                } else {
                    None
                }
            },
            _ => self.repair_step(c, r),
        }
    }

    /// The configuration after the repairs of `s`, each of which succeeds, with no run of the
    /// simulator between them; `None` if one of them fails.
    pub open spec fn replay(self, c: Config, s: Seq<Repair>) -> Option<Config>
        decreases s.len(),
    {
        if s.len() == 0 {
            Some(c)
        } else {
            match self.replay(c, s.drop_last()) {
                Some(m) => self.replay_step(m, s.last()),
                None => None,
            }
        }
    }

    /// From configuration `c` the parser can go on: it shifts the lookahead, or it accepts.
    pub open spec fn goes_on(self, c: Config) -> bool {
        self.lr(None, c.laidx, c.stack).shifted || self.run_accepts(
            c.stack,
            self.lookahead(None, c.laidx).tok_id,
            self.can_shift(None, c.laidx),
        )
    }
}

impl ParserModel {
    /// The table never reduces.
    pub open spec fn never_reduces(self) -> bool {
        forall|st: StIdx, t: TIdx| !(#[trigger] self.lr.action(st, t) is Reduce)
    }
}

/// In a table that never reduces, a run of the simulator that shifts nothing leaves the stack
/// as it was.
pub proof fn lemma_run_stays(m: ParserModel, stack: Seq<StIdx>, tok: TIdx, can: bool, fuel: nat)
    requires
        m.never_reduces(),
        !m.sim(stack, tok, can, fuel).shifted,
    ensures
        m.sim(stack, tok, can, fuel).stack == stack,
{
    if stack.len() > 0 {
        assert(!(m.lr.action(stack.last(), tok) is Reduce));
    }
}

/// In a table that never reduces, runs of the simulator that shift nothing leave the stack as
/// it was.
pub proof fn lemma_reduced_stays(m: ParserModel, from: Seq<StIdx>, to: Seq<StIdx>, n: nat)
    requires
        m.never_reduces(),
        m.reduced(from, to, n),
    ensures
        to == from,
    decreases n,
{
    if n > 0 {
        let (mid, tok, can) = choose|mid: Seq<StIdx>, tok: TIdx, can: bool|
            m.reduced(from, mid, (n - 1) as nat) && !(#[trigger] m.sim(mid, tok, can, REDUCE_LIMIT as nat)).shifted
                && m.sim(mid, tok, can, REDUCE_LIMIT as nat).stack == to;
        lemma_reduced_stays(m, from, mid, (n - 1) as nat);
        lemma_run_stays(m, mid, tok, can, REDUCE_LIMIT as nat);
    }
}

/// The reductions of a table that never reduces agree: a table for the grammar that only
/// shifts, accepts and fails.
pub proof fn lemma_shifting_table_agrees(m: ParserModel)
    requires
        m.lr.fits(m.grm),
        m.never_reduces(),
    ensures
        m.reductions_agree(),
{
    assert forall|stack: Seq<StIdx>, tok: TIdx|
        m.stack_valid(stack) && tok != m.grm.eof_token && m.lr.action(stack.last(), tok) != Action::Error implies (
    #[trigger] m.sim(stack, tok, true, REDUCE_LIMIT as nat)).shifted by {
        let st = stack.last();
        assert(!(m.lr.action(st, tok) is Reduce));
        assert(st < m.lr.actions.len() && tok < m.lr.actions[st as int].len());
        assert(m.lr.actions[st as int][tok as int] == m.lr.action(st, tok));
        assert(!(m.lr.action(st, tok) is Accept));
    }
    assert forall|from: Seq<StIdx>, to: Seq<StIdx>, n: nat, tok: TIdx, can: bool|
        #![trigger m.reduced(from, to, n), m.sim(to, tok, can, REDUCE_LIMIT as nat)]
        m.stack_valid(from) && m.reduced(from, to, n) implies {
        &&& m.sim(to, tok, can, REDUCE_LIMIT as nat).shifted ==> m.sim(from, tok, can, REDUCE_LIMIT as nat) == m.sim(
            to,
            tok,
            can,
            REDUCE_LIMIT as nat,
        )
        &&& m.run_accepts(to, tok, can) ==> m.run_accepts(from, tok, can)
    } by {
        lemma_reduced_stays(m, from, to, n);
    }
}

/// A run of the simulator on a stack that the parser can have leaves such a stack.
pub proof fn lemma_sim_valid(m: ParserModel, stack: Seq<StIdx>, tok: TIdx, can: bool, fuel: nat)
    requires
        m.stack_valid(stack),
    ensures
        m.stack_valid(m.sim(stack, tok, can, fuel).stack),
    decreases fuel,
{
    match m.lr.action(stack.last(), tok) {
        Action::Shift(st) => {
            if can {
                let next = stack.push(st);
                assert forall|i: int| 0 <= i && i + 1 < next.len() implies m.steps_to(#[trigger] next[i], next[i + 1]) by {
                    if i + 1 < stack.len() {
                        assert(m.steps_to(stack[i], stack[i + 1]));
                    }
                }
            }
        },
        Action::Reduce(p) => {
            match m.reduce(stack, p) {
                Some(next) => {
                    if fuel > 0 {
                        let base = stack.take(stack.len() - m.grm.prods[p as int].len());
                        let r = m.grm.prod_rules[p as int];
                        assert(m.lr.goto(base.last(), r) == Some(next.last()));
                        assert forall|i: int| 0 <= i && i + 1 < next.len() implies m.steps_to(
                            #[trigger] next[i],
                            next[i + 1],
                        ) by {
                            if i + 1 < base.len() {
                                assert(m.steps_to(stack[i], stack[i + 1]));
                            }
                        }
                        lemma_sim_valid(m, next, tok, can, (fuel - 1) as nat);
                    }
                },
                None => {},
            }
        },
        _ => {},
    }
}

/// Where reductions agree, the replay of a sequence that the search made from a stack that
/// the parser can have succeeds, and reaches the position that the search reached, with a
/// stack of which runs without a shift make the stack that the search reached.
pub proof fn lemma_replay_agrees(m: ParserModel, start: Config, s: Seq<Repair>, c: Config, n: nat) -> (k:
    nat)
    requires
        m.reductions_agree(),
        m.stack_valid(start.stack),
        m.reaches(start, s, c, n),
    ensures
        m.replay(start, s) is Some,
        m.replay(start, s)->Some_0.laidx == c.laidx,
        m.stack_valid(m.replay(start, s)->Some_0.stack),
        m.stack_valid(c.stack),
        m.reduced(m.replay(start, s)->Some_0.stack, c.stack, k),
    decreases n,
{
    if n == 0 {
        0
    } else if exists|mid: Config| m.reaches(start, s, mid, (n - 1) as nat) && #[trigger] m.settle(mid) == Some(c) {
        let mid = choose|mid: Config| m.reaches(start, s, mid, (n - 1) as nat) && #[trigger] m.settle(mid) == Some(c);
        let k = lemma_replay_agrees(m, start, s, mid, (n - 1) as nat);
        let from = m.replay(start, s)->Some_0.stack;
        let tok = m.lookahead(None, mid.laidx).tok_id;
        let can = m.can_shift(None, mid.laidx);
        assert(!m.sim(mid.stack, tok, can, REDUCE_LIMIT as nat).shifted);
        assert(m.reduced(from, c.stack, k + 1));
        lemma_sim_valid(m, mid.stack, tok, can, REDUCE_LIMIT as nat);
        k + 1
    } else {
        let s0 = s.drop_last();
        let r = s.last();
        let mid = choose|mid: Config|
            m.reaches(start, s0, mid, (n - 1) as nat) && #[trigger] m.repair_step(mid, s.last()) == Some(c);
        let k = lemma_replay_agrees(m, start, s0, mid, (n - 1) as nat);
        let c0 = m.replay(start, s0)->Some_0;
        match r {
            Repair::InsertTerm(t) => {
                let l = Some(m.inserted_lexeme(t, mid.laidx));
                let tok = m.lookahead(l, mid.laidx).tok_id;
                let can = m.can_shift(l, mid.laidx);
                assert(m.sim(mid.stack, tok, can, REDUCE_LIMIT as nat).stack != mid.stack);
                assert(m.lr.action(mid.stack.last(), tok) != Action::Error);
                assert(m.sim(mid.stack, tok, true, REDUCE_LIMIT as nat).shifted);
                assert(m.reduced(c0.stack, mid.stack, k));
                assert(m.sim(c0.stack, tok, can, REDUCE_LIMIT as nat) == m.sim(mid.stack, tok, can, REDUCE_LIMIT as nat));
                assert(m.replay(start, s) == Some(c));
                assert(m.reduced(c.stack, c.stack, 0));
                lemma_sim_valid(m, c0.stack, tok, can, REDUCE_LIMIT as nat);
                0
            },
            Repair::Delete => {
                k
            },
            Repair::Shift => {
                let tok = m.lookahead(None, mid.laidx).tok_id;
                let can = m.can_shift(None, mid.laidx);
                assert(m.sim(mid.stack, tok, can, REDUCE_LIMIT as nat).shifted);
                assert(m.reduced(c0.stack, mid.stack, k));
                assert(m.sim(c0.stack, tok, can, REDUCE_LIMIT as nat) == m.sim(mid.stack, tok, can, REDUCE_LIMIT as nat));
                assert(m.replay(start, s) == Some(c));
                assert(m.reduced(c.stack, c.stack, 0));
                lemma_sim_valid(m, c0.stack, tok, can, REDUCE_LIMIT as nat);
                0
            },
        }
    }
}

/// The replay of a sequence in which every repair succeeds reaches what the replay of its
/// reported form reaches.
pub proof fn lemma_replay_is_apply(m: ParserModel, start: Config, first: int, s: Seq<Repair>)
    requires
        m.replay(start, s) is Some,
    ensures
        m.apply(start, m.parse_repairs(first, s)) == m.replay(start, s)->Some_0,
    decreases s.len(),
{
    if s.len() > 0 {
        let s0 = s.drop_last();
        lemma_replay_is_apply(m, start, first, s0);
        let rs = m.parse_repairs(first, s);
        assert(rs.drop_last() =~= m.parse_repairs(first, s0));
        assert(rs.last() == m.parse_repair(first + consumed(s0), s.last()));
    }
}

/// The reported form of a sequence without the shifts at its end is the reported form
/// without the shifts at its end.
pub proof fn lemma_without_shifts(m: ParserModel, first: int, s: Seq<Repair>)
    ensures
        without_trailing_shifts(m.parse_repairs(first, s)) == m.parse_repairs(first, without_shifts(s)),
        without_shifts(s) == s ==> trailing_shifts(s) == 0,
    decreases s.len(),
{
    lemma_parse_repairs(m, first, s);
    if s.len() > 0 {
        let rs = m.parse_repairs(first, s);
        assert(rs.last() is Shift <==> s.last() == Repair::Shift) by {
            assert(rs[s.len() - 1] is Shift <==> s[s.len() - 1] == Repair::Shift);
        }
        if s.last() == Repair::Shift {
            lemma_without_shifts(m, first, s.drop_last());
            assert(rs.drop_last() =~= m.parse_repairs(first, s.drop_last()));
            lemma_without_shifts_shorter(s.drop_last());
        }
    }
}

/// A sequence without the shifts at its end is no longer than the sequence.
pub proof fn lemma_without_shifts_shorter(s: Seq<Repair>)
    ensures
        without_shifts(s).len() <= s.len(),
    decreases s.len(),
{
    if s.len() > 0 && s.last() == Repair::Shift {
        lemma_without_shifts_shorter(s.drop_last());
    }
}

/// Where the replay of a sequence succeeds, so does the replay of the sequence without the
/// shifts at its end; and if there are such shifts, the parser shifts the lookahead behind
/// it.
pub proof fn lemma_replay_without_shifts(m: ParserModel, start: Config, s: Seq<Repair>)
    requires
        m.replay(start, s) is Some,
    ensures
        m.replay(start, without_shifts(s)) is Some,
        without_shifts(s) != s ==> m.lr(
            None,
            m.replay(start, without_shifts(s))->Some_0.laidx,
            m.replay(start, without_shifts(s))->Some_0.stack,
        ).shifted,
    decreases s.len(),
{
    if s.len() > 0 && s.last() == Repair::Shift {
        let s0 = s.drop_last();
        lemma_replay_without_shifts(m, start, s0);
        lemma_without_shifts_shorter(s0);
    }
}

/// Where reductions agree, the parser can go on after the replay, on a stack that the
/// parser can have, of a repair sequence that recovery returns: it shifts the lookahead, or
/// it accepts.
pub proof fn lemma_repair_goes_on(m: ParserModel, start: Config, cost: int, rs: Seq<ParseRepair>)
    requires
        m.reductions_agree(),
        m.stack_valid(start.stack),
        m.repair_of(start, cost, rs),
    ensures
        m.goes_on(m.apply(start, rs)),
{
    let full = choose|full: Seq<ParseRepair>|
        #![trigger m.candidate(start, cost, full)]
        m.candidate(start, cost, full) && rs == without_trailing_shifts(full);
    let (s, c) = choose|s: Seq<Repair>, c: Config|
        #![trigger m.leads(start, s, c)]
        m.leads(start, s, c) && (trailing_shifts(s) >= crate::cpctplus::PARSE_AT_LEAST || m.accepts(c))
            && m.seq_cost(start.laidx, s) == cost && crate::replay::no_insert_after_delete(s) && c.laidx
            <= m.lexemes.len() && full == m.parse_repairs(start.laidx, s);
    let n = choose|n: nat| m.reaches(start, s, c, n);
    let k = lemma_replay_agrees(m, start, s, c, n);
    let c0 = m.replay(start, s)->Some_0;
    let s1 = without_shifts(s);
    lemma_without_shifts(m, start.laidx, s);
    lemma_replay_without_shifts(m, start, s);
    lemma_replay_is_apply(m, start, start.laidx, s1);
    if s1 == s {
        let tok = m.lookahead(None, c.laidx).tok_id;
        let can = m.can_shift(None, c.laidx);
        assert(m.accepts(c));
        assert(m.sim(c.stack, tok, can, REDUCE_LIMIT as nat).stack == c.stack);
        assert(m.run_accepts(c.stack, tok, can));
        assert(m.reduced(c0.stack, c.stack, k));
        assert(m.run_accepts(c0.stack, tok, can));
    }
}


impl ParserModel {
    /// The replay of the reported repair sequence `rs` from `start` succeeds at every repair,
    /// and ends with enough shifts, or where the parser accepts.
    pub open spec fn replays_to_success(self, start: Config, rs: Seq<ParseRepair>) -> bool {
        exists|s: Seq<Repair>|
            #![trigger self.replay(start, s)]
            rs == self.parse_repairs(start.laidx, s) && self.replay(start, s) is Some && self.apply(start, rs)
                == self.replay(start, s)->Some_0 && (trailing_shifts(s) >= crate::cpctplus::PARSE_AT_LEAST
                || self.run_accepts(
                self.apply(start, rs).stack,
                self.lookahead(None, self.apply(start, rs).laidx).tok_id,
                self.can_shift(None, self.apply(start, rs).laidx),
            ))
    }
}

/// Where reductions agree, the replay, on a stack that the parser can have, of a repair
/// sequence that the search found succeeds at every repair, and ends with enough shifts, or
/// where the parser accepts.
pub proof fn lemma_candidate_replays(m: ParserModel, start: Config, cost: int, rs: Seq<ParseRepair>)
    requires
        m.reductions_agree(),
        m.stack_valid(start.stack),
        m.candidate(start, cost, rs),
    ensures
        m.replays_to_success(start, rs),
{
    let (s, c) = choose|s: Seq<Repair>, c: Config|
        #![trigger m.leads(start, s, c)]
        m.leads(start, s, c) && (trailing_shifts(s) >= crate::cpctplus::PARSE_AT_LEAST || m.accepts(c))
            && m.seq_cost(start.laidx, s) == cost && crate::replay::no_insert_after_delete(s) && c.laidx
            <= m.lexemes.len() && rs == m.parse_repairs(start.laidx, s);
    let n = choose|n: nat| m.reaches(start, s, c, n);
    let k = lemma_replay_agrees(m, start, s, c, n);
    lemma_replay_is_apply(m, start, start.laidx, s);
    let c0 = m.replay(start, s)->Some_0;
    if trailing_shifts(s) < crate::cpctplus::PARSE_AT_LEAST {
        let tok = m.lookahead(None, c.laidx).tok_id;
        let can = m.can_shift(None, c.laidx);
        assert(m.sim(c.stack, tok, can, REDUCE_LIMIT as nat).stack == c.stack);
        assert(m.run_accepts(c.stack, tok, can));
        assert(m.reduced(c0.stack, c.stack, k));
        assert(m.run_accepts(c0.stack, tok, can));
    }
    assert(m.replay(start, s) is Some);
}

} // verus!
