//! LR state tables: for each state, what to do on each token and where to go after each rule.

use crate::grammar::{Cfg, PIdx, RIdx, TIdx, YaccGrammar};
use vstd::prelude::*;

verus! {

/// The index of a state.
pub type StIdx = u32;

/// What the parser does in a state on a token.
#[derive(Clone, Copy, Debug, PartialEq, Eq, Structural)]
pub enum Action {
    /// Push the state and go on to the next token.
    Shift(StIdx),
    /// Replace the states of the production's symbols by the state behind its rule.
    Reduce(PIdx),
    /// The input is a sentence of the grammar.
    Accept,
    /// The token cannot stand here.
    Error,
}

/// The mathematical content of a state table.
pub struct Lr {
    /// The action of each state on each token.
    pub actions: Seq<Seq<Action>>,
    /// The state that follows each state after each rule, where there is one.
    pub gotos: Seq<Seq<Option<StIdx>>>,
    /// The state in which parsing starts.
    pub start_state: StIdx,
}

impl Lr {
    /// The action of state `st` on token `t`; `Error` where the table has no entry.
    pub open spec fn action(self, st: StIdx, t: TIdx) -> Action {
        if st < self.actions.len() && t < self.actions[st as int].len() {
            self.actions[st as int][t as int]
        } else {
            Action::Error
        }
    }

    /// The state that follows state `st` after rule `r`, where the table has one.
    pub open spec fn goto(self, st: StIdx, r: RIdx) -> Option<StIdx> {
        if st < self.gotos.len() && r < self.gotos[st as int].len() {
            self.gotos[st as int][r as int]
        } else {
            None
        }
    }

    /// The table is one for the grammar `g`: every state has an action for each token and an
    /// entry for each rule; the states, productions and rules that the entries name exist;
    /// only the end-of-input token is accepted; and parsing starts in state 0.
    pub open spec fn fits(self, g: Cfg) -> bool {
        &&& 1 <= self.actions.len() <= u32::MAX
        &&& self.gotos.len() == self.actions.len()
        &&& self.start_state == 0
        &&& forall|s: int| 0 <= s < self.actions.len() ==> (#[trigger] self.actions[s]).len() == g.tokens_len
        &&& forall|s: int| 0 <= s < self.gotos.len() ==> (#[trigger] self.gotos[s]).len() == g.rules_len
        &&& forall|s: int, t: int|
            0 <= s < self.actions.len() && 0 <= t < g.tokens_len ==> match #[trigger] self.actions[s][t] {
                Action::Shift(to) => to < self.actions.len(),
                Action::Reduce(p) => p < g.prods.len(),
                Action::Accept => t == g.eof_token,
                Action::Error => true,
            }
        &&& forall|s: int, r: int|
            0 <= s < self.gotos.len() && 0 <= r < g.rules_len ==> ((#[trigger] self.gotos[s][r]) matches Some(
                to,
            ) ==> to < self.actions.len())
    }

    /// `ts` lists, in ascending order, the tokens on which state `st` does not fail.
    pub open spec fn is_state_actions(self, st: StIdx, ts: Seq<TIdx>) -> bool {
        &&& forall|i: int, j: int| 0 <= i < j < ts.len() ==> ts[i] < ts[j]
        &&& forall|t: TIdx| ts.contains(t) <==> self.action(st, t) != Action::Error
    }
}

/// A state table.
pub struct StateTable {
    actions: Vec<Vec<Action>>,
    gotos: Vec<Vec<Option<StIdx>>>,
    start_state: StIdx,
}

impl View for StateTable {
    type V = Lr;

    closed spec fn view(&self) -> Lr {
        Lr {
            actions: Seq::new(self.actions@.len(), |s: int| self.actions@[s]@),
            gotos: Seq::new(self.gotos@.len(), |s: int| self.gotos@[s]@),
            start_state: self.start_state,
        }
    }
}

impl StateTable {
    /// A table from its rows: `actions[st][t]` for state `st` and token `t`, `gotos[st][r]`
    /// for state `st` and rule `r`.
    pub fn from_rows(
        actions: Vec<Vec<Action>>,
        gotos: Vec<Vec<Option<StIdx>>>,
        start_state: StIdx,
    ) -> (st: StateTable)
        ensures
            st@.actions == Seq::new(actions@.len(), |s: int| actions@[s]@),
            st@.gotos == Seq::new(gotos@.len(), |s: int| gotos@[s]@),
            st@.start_state == start_state,
    {
        StateTable { actions, gotos, start_state }
    }

    /// The LR(1) state table of `grm`, or `None` if the grammar is too large for one: see
    /// [`too_large`](crate::stategraph::too_large). Where a state could both shift a token
    /// and reduce on it, it shifts; where it could reduce by several productions, it reduces
    /// by the first of them.
    pub fn new(grm: &YaccGrammar) -> (res: Option<StateTable>)
        ensures
            res is None <==> crate::stategraph::too_large(grm@),
            res matches Some(st) ==> st@.fits(grm@) && crate::stategraph::is_lr1_table(grm@, st@),
    {
        crate::stategraph::build_table(grm)
    }

    /// The state in which parsing starts.
    pub fn start_state(&self) -> (st: StIdx)
        ensures
            st == self@.start_state,
    {
        self.start_state
    }

    /// The action of state `stidx` on token `tidx`.
    pub fn action(&self, stidx: StIdx, tidx: TIdx) -> (a: Action)
        ensures
            a == self@.action(stidx, tidx),
    {
        if (stidx as usize) < self.actions.len() {
            let row = &self.actions[stidx as usize];
            if (tidx as usize) < row.len() {
                return row[tidx as usize];
            }
        }
        Action::Error
    }

    /// The state that follows state `stidx` after rule `ridx`.
    pub fn goto(&self, stidx: StIdx, ridx: RIdx) -> (st: Option<StIdx>)
        ensures
            st == self@.goto(stidx, ridx),
    {
        if (stidx as usize) < self.gotos.len() {
            let row = &self.gotos[stidx as usize];
            if (ridx as usize) < row.len() {
                return row[ridx as usize];
            }
        }
        None
    }

    /// The tokens on which state `stidx` does not fail, in ascending order.
    pub fn state_actions(&self, stidx: StIdx) -> (ts: Vec<TIdx>)
        ensures
            self@.is_state_actions(stidx, ts@),
    {
        let mut ts: Vec<TIdx> = Vec::new();
        if (stidx as usize) < self.actions.len() {
            let row = &self.actions[stidx as usize];
            let mut t: usize = 0;
            while t < row.len() && t <= u32::MAX as usize
                invariant
                    stidx < self.actions@.len(),
                    row@ == self.actions@[stidx as int]@,
                    t <= row@.len(),
                    t <= u32::MAX + 1,
                    forall|i: int, j: int| 0 <= i < j < ts@.len() ==> ts@[i] < ts@[j],
                    forall|i: int| 0 <= i < ts@.len() ==> (#[trigger] ts@[i]) < t,
                    forall|u: TIdx| ts@.contains(u) <==> u < t && self@.action(stidx, u) != Action::Error,
                decreases row@.len() - t,
            {
                let ghost before = ts@;
                match row[t] {
                    Action::Error => {},
                    _ => {
                        ts.push(t as TIdx);
                        proof {
                            assert(ts@[before.len() as int] == t as TIdx);
                            assert forall|u: TIdx| ts@.contains(u) <==> u < t + 1 && self@.action(stidx, u)
                                != Action::Error by {
                                if ts@.contains(u) {
                                    let i = choose|i: int| 0 <= i < ts@.len() && ts@[i] == u;
                                    if i < before.len() {
                                        assert(before[i] == u);
                                        assert(before.contains(u));
                                    }
                                }
                                if u < t && self@.action(stidx, u) != Action::Error {
                                    assert(before.contains(u));
                                    let i = choose|i: int| 0 <= i < before.len() && before[i] == u;
                                    assert(ts@[i] == u);
                                }
                            }
                        }
                    },
                }
                t += 1;
            }
        }
        ts
    }
}

} // verus!
