//! The LR parser as error recovery sees it: the grammar, the state table, the input and the
//! cost of each token, with a simulator that runs the table on a stack.

use crate::grammar::{Cfg, PIdx, RIdx, TIdx, YaccGrammar};
use crate::lex::Lexeme;
use crate::pstack::{pstack_child, pstack_clone, pstack_parent, pstack_states, pstack_val};
use crate::replay::{lemma_sim_shifted, Config};
use crate::statetable::{Action, Lr, StIdx, StateTable};
use cactus::Cactus;
use vstd::prelude::*;

verus! {

/// A node of a parse tree.
#[derive(Debug)]
pub enum Node {
    /// A token of the input, or one that error recovery inserted.
    Term { lexeme: Lexeme },
    /// A rule with the trees of the symbols of one of its productions.
    Nonterm { ridx: RIdx, nodes: Vec<Node> },
}

/// The mathematical content of a parse tree.
pub enum Tree {
    Term(Lexeme),
    Nonterm(RIdx, Seq<Tree>),
}

/// The tree that a node is the root of.
pub open spec fn tree_of(n: Node) -> Tree
    decreases n,
{
    match n {
        Node::Term { lexeme } => Tree::Term(lexeme),
        Node::Nonterm { ridx, nodes } => Tree::Nonterm(
            ridx,
            Seq::new(
                nodes@.len(),
                |i: int|
                    if 0 <= i < nodes@.len() {
                        tree_of(nodes@[i])
                    } else {
                        Tree::Nonterm(0, Seq::empty())
                    },
            ),
        ),
    }
}

/// The trees that the nodes of a stack are the roots of.
pub open spec fn trees_of(ns: Seq<Node>) -> Seq<Tree> {
    Seq::new(ns.len(), |i: int| tree_of(ns[i]))
}


/// How many reductions the simulator performs at most before it looks at the next token.
pub const REDUCE_LIMIT: usize = 1_000_000_000;

/// Where a run of the simulator ended.
pub struct SimResult {
    /// The stack that the run left.
    pub stack: Seq<StIdx>,
    /// Whether the run ended by shifting the token.
    pub shifted: bool,
}

/// The mathematical content of a parser: what the simulator and error recovery read.
pub struct ParserModel {
    pub grm: Cfg,
    pub lr: Lr,
    /// The cost of inserting or deleting each token.
    pub costs: Seq<u8>,
    /// The input.
    pub lexemes: Seq<Lexeme>,
}

impl ParserModel {
    /// The token at position `laidx` of the input; behind the input, the end-of-input token.
    pub open spec fn next_tidx(self, laidx: int) -> TIdx {
        if 0 <= laidx < self.lexemes.len() {
            self.lexemes[laidx].tok_id
        } else {
            self.grm.eof_token
        }
    }

    /// The offset at which the input ends.
    pub open spec fn end_offset(self) -> usize {
        if self.lexemes.len() == 0 {
            0
        } else {
            let last = self.lexemes.last();
            if last.start + last.len > usize::MAX {
                usize::MAX
            } else {
                (last.start + last.len) as usize
            }
        }
    }

    /// The lexeme at position `laidx` of the input; behind the input, an end-of-input lexeme
    /// of length 0.
    pub open spec fn next_lexeme(self, laidx: int) -> Lexeme {
        if 0 <= laidx < self.lexemes.len() {
            self.lexemes[laidx]
        } else {
            Lexeme { tok_id: self.grm.eof_token, start: self.end_offset(), len: 0 }
        }
    }

    /// The cost of inserting or deleting token `t`.
    pub open spec fn token_cost(self, t: TIdx) -> u8 {
        if t < self.costs.len() {
            self.costs[t as int]
        } else {
            0
        }
    }

    /// The stack after a reduction by production `p`: the states of the production's symbols
    /// leave, and the state that follows the uncovered state after the production's rule
    /// enters. `None` where the table gives no such state or the stack is too short.
    pub open spec fn reduce(self, stack: Seq<StIdx>, p: PIdx) -> Option<Seq<StIdx>> {
        if p < self.grm.prods.len() && self.grm.prods[p as int].len() < stack.len() {
            let base = stack.take(stack.len() - self.grm.prods[p as int].len());
            match self.lr.goto(base.last(), self.grm.prod_rules[p as int]) {
                Some(st) => Some(base.push(st)),
                None => None,
            }
        } else {
            None
        }
    }

    /// Runs the table on `stack` with the lookahead token `tok`: reductions as long as the
    /// table asks for them, at most `fuel` of them, and then the shift if the table asks for
    /// it and `can_shift` allows it. The run ends without a shift on `Accept`, on `Error`, on
    /// an empty stack and on a reduction that cannot be made.
    pub open spec fn sim(self, stack: Seq<StIdx>, tok: TIdx, can_shift: bool, fuel: nat) -> SimResult
        decreases fuel,
    {
        if stack.len() == 0 {
            SimResult { stack, shifted: false }
        } else {
            match self.lr.action(stack.last(), tok) {
                Action::Shift(st) => if can_shift {
                    SimResult { stack: stack.push(st), shifted: true }
                } else {
                    SimResult { stack, shifted: false }
                },
                Action::Reduce(p) => match self.reduce(stack, p) {
                    Some(next) => if fuel == 0 {
                        SimResult { stack, shifted: false }
                    } else {
                        self.sim(next, tok, can_shift, (fuel - 1) as nat)
                    },
                    None => SimResult { stack, shifted: false },
                },
                _ => SimResult { stack, shifted: false },
            }
        }
    }

    /// The trees after the same run, where the trees before it are `trees` and the lookahead
    /// token is the token of `lexeme`: a shift appends the lexeme; a reduction replaces as many
    /// trees as the production has symbols by one tree of its rule.
    pub open spec fn sim_trees(
        self,
        stack: Seq<StIdx>,
        trees: Seq<Tree>,
        lexeme: Lexeme,
        can_shift: bool,
        fuel: nat,
    ) -> Seq<Tree>
        decreases fuel,
    {
        if stack.len() == 0 {
            trees
        } else {
            match self.lr.action(stack.last(), lexeme.tok_id) {
                Action::Shift(st) => if can_shift {
                    trees.push(Tree::Term(lexeme))
                } else {
                    trees
                },
                Action::Reduce(p) => match self.reduce(stack, p) {
                    Some(next) => if fuel == 0 {
                        trees
                    } else {
                        self.sim_trees(next, self.reduce_trees(trees, p), lexeme, can_shift, (fuel - 1) as nat)
                    },
                    None => trees,
                },
                _ => trees,
            }
        }
    }

    /// The trees after a reduction by production `p`.
    pub open spec fn reduce_trees(self, trees: Seq<Tree>, p: PIdx) -> Seq<Tree> {
        let k = self.grm.prods[p as int].len();
        let kept = if trees.len() >= k {
            trees.len() - k
        } else {
            0
        };
        trees.take(kept).push(Tree::Nonterm(self.grm.prod_rules[p as int], trees.skip(kept)))
    }

    /// The configuration in which the parser comes to rest on the input as it is: it shifts
    /// lexeme after lexeme, with the reductions before each, until it cannot shift.
    pub open spec fn rest(self, c: Config) -> Config
        decreases self.lexemes.len() - c.laidx,
    {
        let res = self.lr(None, c.laidx, c.stack);
        if res.shifted && c.laidx < self.lexemes.len() {
            self.rest(Config { stack: res.stack, laidx: c.laidx + 1 })
        } else {
            Config { stack: res.stack, laidx: c.laidx }
        }
    }

    /// The parse trees when the parser has come to rest.
    pub open spec fn rest_trees(self, c: Config, trees: Seq<Tree>) -> Seq<Tree>
        decreases self.lexemes.len() - c.laidx,
    {
        let res = self.lr(None, c.laidx, c.stack);
        if res.shifted && c.laidx < self.lexemes.len() {
            self.rest_trees(
                Config { stack: res.stack, laidx: c.laidx + 1 },
                self.lr_trees(None, c.laidx, c.stack, trees),
            )
        } else {
            self.lr_trees(None, c.laidx, c.stack, trees)
        }
    }

    /// The lookahead lexeme of a run at position `laidx`: the inserted lexeme where there is
    /// one, else the lexeme of the input.
    pub open spec fn lookahead(self, lexeme_prefix: Option<Lexeme>, laidx: int) -> Lexeme {
        match lexeme_prefix {
            Some(l) => l,
            None => self.next_lexeme(laidx),
        }
    }

    /// Whether the lookahead of a run at position `laidx` can be shifted: an inserted lexeme
    /// always, a lexeme of the input unless the input has ended.
    pub open spec fn can_shift(self, lexeme_prefix: Option<Lexeme>, laidx: int) -> bool {
        lexeme_prefix is Some || laidx < self.lexemes.len()
    }

    /// One run of the simulator at position `laidx`.
    pub open spec fn lr(self, lexeme_prefix: Option<Lexeme>, laidx: int, stack: Seq<StIdx>) -> SimResult {
        self.sim(
            stack,
            self.lookahead(lexeme_prefix, laidx).tok_id,
            self.can_shift(lexeme_prefix, laidx),
            REDUCE_LIMIT as nat,
        )
    }

    /// The trees after one run of the simulator at position `laidx`.
    pub open spec fn lr_trees(
        self,
        lexeme_prefix: Option<Lexeme>,
        laidx: int,
        stack: Seq<StIdx>,
        trees: Seq<Tree>,
    ) -> Seq<Tree> {
        self.sim_trees(
            stack,
            trees,
            self.lookahead(lexeme_prefix, laidx),
            self.can_shift(lexeme_prefix, laidx),
            REDUCE_LIMIT as nat,
        )
    }
}

/// A parser at rest: a grammar, its state table, the cost of each token and the input.
pub struct Parser<'a> {
    grm: &'a YaccGrammar,
    stable: &'a StateTable,
    token_cost: &'a Vec<u8>,
    lexemes: &'a Vec<Lexeme>,
}

impl<'a> View for Parser<'a> {
    type V = ParserModel;

    closed spec fn view(&self) -> ParserModel {
        ParserModel { grm: self.grm@, lr: self.stable@, costs: self.token_cost@, lexemes: self.lexemes@ }
    }
}

impl<'a> Parser<'a> {
    #[verifier::type_invariant]
    closed spec fn inv(&self) -> bool {
        self.token_cost@.len() == self.grm@.tokens_len && self.lexemes@.len() < usize::MAX
    }

    /// A parser for the input `lexemes`. `token_cost` holds the cost of each token of `grm`.
    pub fn new(
        grm: &'a YaccGrammar,
        stable: &'a StateTable,
        token_cost: &'a Vec<u8>,
        lexemes: &'a Vec<Lexeme>,
    ) -> (p: Parser<'a>)
        requires
            token_cost@.len() == grm@.tokens_len,
            lexemes@.len() < usize::MAX,
        ensures
            p@ == (ParserModel { grm: grm@, lr: stable@, costs: token_cost@, lexemes: lexemes@ }),
    {
        Parser { grm, stable, token_cost, lexemes }
    }

    /// The grammar.
    pub fn grm(&self) -> (g: &'a YaccGrammar)
        ensures
            g@ == self@.grm,
            self@.costs.len() == self@.grm.tokens_len,
            self@.lexemes.len() < usize::MAX,
    {
        proof {
            use_type_invariant(self);
        }
        self.grm
    }

    /// The state table.
    pub fn stable(&self) -> (t: &'a StateTable)
        ensures
            t@ == self@.lr,
    {
        self.stable
    }

    /// The number of lexemes of the input.
    pub fn lexemes_len(&self) -> (n: usize)
        ensures
            n == self@.lexemes.len(),
            n < usize::MAX,
    {
        proof {
            use_type_invariant(self);
        }
        self.lexemes.len()
    }

    /// The cost of inserting or deleting token `tidx`.
    pub fn token_cost(&self, tidx: TIdx) -> (c: u8)
        ensures
            c == self@.token_cost(tidx),
    {
        if (tidx as usize) < self.token_cost.len() {
            self.token_cost[tidx as usize]
        } else {
            0
        }
    }

    /// The token at position `laidx` of the input; behind the input, the end-of-input token.
    pub fn next_tidx(&self, laidx: usize) -> (t: TIdx)
        ensures
            t == self@.next_tidx(laidx as int),
    {
        if laidx < self.lexemes.len() {
            self.lexemes[laidx].tok_id()
        } else {
            self.grm.eof_token_idx()
        }
    }

    /// The lexeme at position `laidx` of the input; behind the input, an end-of-input lexeme
    /// of length 0.
    pub fn next_lexeme(&self, laidx: usize) -> (l: Lexeme)
        ensures
            l == self@.next_lexeme(laidx as int),
    {
        let llen = self.lexemes.len();
        if laidx < llen {
            self.lexemes[laidx]
        } else {
            let last_la_end = if llen == 0 {
                0
            } else {
                let last_la = self.lexemes[llen - 1];
                last_la.start().saturating_add(last_la.len())
            };
            Lexeme::new(self.grm.eof_token_idx(), last_la_end, 0)
        }
    }

    /// One run of the simulator on a shared stack, without a parse tree. With `laidx` equal
    /// to `end_laidx` nothing is done. Else the lookahead is `lexeme_prefix` where there is
    /// one, and the lexeme at `laidx` of the input where there is none; the simulator performs
    /// the reductions that the table asks for, at most [`REDUCE_LIMIT`] of them, and then the
    /// shift if it asks for one. The end of the input is never shifted. The result is the
    /// position behind the lookahead if it was shifted, else `laidx`, and the stack that the
    /// run left.
    pub fn lr_cactus(
        &self,
        lexeme_prefix: Option<Lexeme>,
        laidx: usize,
        end_laidx: usize,
        pstack: Cactus<StIdx>,
    ) -> (res: (usize, Cactus<StIdx>))
        requires
            laidx < usize::MAX,
            lexeme_prefix is Some ==> end_laidx == laidx + 1,
        ensures
            laidx == end_laidx ==> res.0 == laidx && pstack_states(res.1) == pstack_states(pstack),
            laidx != end_laidx ==> {
                let r = self@.lr(lexeme_prefix, laidx as int, pstack_states(pstack));
                &&& pstack_states(res.1) == r.stack
                &&& res.0 == if r.shifted {
                    laidx + 1
                } else {
                    laidx as int
                }
            },
    {
        proof {
            use_type_invariant(self);
        }
        if laidx == end_laidx {
            return (laidx, pstack);
        }
        let la_lexeme = match lexeme_prefix {
            Some(l) => l,
            None => self.next_lexeme(laidx),
        };
        let la_tidx = la_lexeme.tok_id();
        let can_shift = lexeme_prefix.is_some() || laidx < self.lexemes.len();
        let ghost m = self@;
        let ghost goal = m.lr(lexeme_prefix, laidx as int, pstack_states(pstack));
        let mut cur = pstack_clone(&pstack);
        let mut fuel: usize = REDUCE_LIMIT;
        loop
            invariant
                m == self@,
                laidx < usize::MAX,
                laidx != end_laidx,
                goal == m.lr(lexeme_prefix, laidx as int, pstack_states(pstack)),
                goal == m.sim(pstack_states(cur), la_tidx, can_shift, fuel as nat),
            decreases fuel,
        {
            let stidx = match pstack_val(&cur) {
                Some(st) => st,
                None => {
                    return (laidx, cur);
                },
            };
            match self.stable.action(stidx, la_tidx) {
                Action::Shift(state_id) => {
                    if can_shift {
                        let next = pstack_child(&cur, state_id);
                        return (laidx + 1, next);
                    }
                    return (laidx, cur);
                },
                Action::Reduce(pidx) => {
                    if pidx >= self.grm.prods_len() {
                        return (laidx, cur);
                    }
                    let ridx = self.grm.prod_to_rule(pidx);
                    let pop_num = self.grm.prod(pidx).len();
                    let ghost before = pstack_states(cur);
                    let mut base = pstack_clone(&cur);
                    let mut popped: usize = 0;
                    let mut short = false;
                    while popped < pop_num && !short
                        invariant
                            popped <= pop_num,
                            before == pstack_states(cur),
                            !short ==> popped <= before.len() && pstack_states(base) == before.take(
                                before.len() - popped,
                            ),
                            short ==> before.len() < pop_num,
                        decreases pop_num - popped + if short { 0int } else { 1int },
                    {
                        match pstack_parent(&base) {
                            Some(p) => {
                                proof {
                                    assert(before.take(before.len() - popped).drop_last() =~= before.take(
                                        before.len() - popped - 1,
                                    ));
                                }
                                base = p;
                                popped += 1;
                            },
                            None => {
                                short = true;
                            },
                        }
                    }
                    if short {
                        return (laidx, cur);
                    }
                    let prior = match pstack_val(&base) {
                        Some(st) => st,
                        None => {
                            return (laidx, cur);
                        },
                    };
                    match self.stable.goto(prior, ridx) {
                        Some(st) => {
                            if fuel == 0 {
                                return (laidx, cur);
                            }
                            fuel -= 1;
                            cur = pstack_child(&base, st);
                        },
                        None => {
                            return (laidx, cur);
                        },
                    }
                },
                _ => {
                    return (laidx, cur);
                },
            }
        }
    }

    /// One run of the simulator on the parser's own stack and parse trees. It does to
    /// `pstack` what [`Parser::lr_cactus`] does to a shared stack; a shift appends the
    /// lookahead lexeme to `tstack`, and a reduction replaces as many of its trees as the
    /// production has symbols by one tree of the production's rule.
    pub fn lr_upto(
        &self,
        lexeme_prefix: Option<Lexeme>,
        laidx: usize,
        end_laidx: usize,
        pstack: &mut Vec<StIdx>,
        tstack: &mut Vec<Node>,
    ) -> (res: usize)
        requires
            laidx < usize::MAX,
            lexeme_prefix is Some ==> end_laidx == laidx + 1,
        ensures
            laidx == end_laidx ==> res == laidx && final(pstack)@ == old(pstack)@ && trees_of(final(tstack)@)
                == trees_of(old(tstack)@),
            laidx != end_laidx ==> {
                let r = self@.lr(lexeme_prefix, laidx as int, old(pstack)@);
                &&& final(pstack)@ == r.stack
                &&& res == if r.shifted {
                    laidx + 1
                } else {
                    laidx as int
                }
                &&& trees_of(final(tstack)@) == self@.lr_trees(
                    lexeme_prefix,
                    laidx as int,
                    old(pstack)@,
                    trees_of(old(tstack)@),
                )
            },
    {
        proof {
            use_type_invariant(self);
        }
        if laidx == end_laidx {
            return laidx;
        }
        let la_lexeme = match lexeme_prefix {
            Some(l) => l,
            None => self.next_lexeme(laidx),
        };
        let la_tidx = la_lexeme.tok_id();
        let can_shift = lexeme_prefix.is_some() || laidx < self.lexemes.len();
        let ghost m = self@;
        let ghost goal = m.lr(lexeme_prefix, laidx as int, pstack@);
        let ghost goal_trees = m.lr_trees(lexeme_prefix, laidx as int, pstack@, trees_of(tstack@));
        let mut fuel: usize = REDUCE_LIMIT;
        loop
            invariant
                m == self@,
                laidx < usize::MAX,
                la_tidx == la_lexeme.tok_id,
                laidx != end_laidx,
                goal == m.lr(lexeme_prefix, laidx as int, old(pstack)@),
                goal_trees == m.lr_trees(lexeme_prefix, laidx as int, old(pstack)@, trees_of(old(tstack)@)),
                goal == m.sim(pstack@, la_tidx, can_shift, fuel as nat),
                goal_trees == m.sim_trees(pstack@, trees_of(tstack@), la_lexeme, can_shift, fuel as nat),
            ensures
                pstack@ == goal.stack,
                trees_of(tstack@) == goal_trees,
                !goal.shifted,
            decreases fuel,
        {
            if pstack.len() == 0 {
                break ;
            }
            let stidx = pstack[pstack.len() - 1];
            match self.stable.action(stidx, la_tidx) {
                Action::Shift(state_id) => {
                    if can_shift {
                        let ghost trees = trees_of(tstack@);
                        pstack.push(state_id);
                        tstack.push(Node::Term { lexeme: la_lexeme });
                        proof {
                            assert(trees_of(tstack@) =~= trees.push(Tree::Term(la_lexeme)));
                        }
                        return laidx + 1;
                    }
                    break ;
                },
                Action::Reduce(pidx) => {
                    if pidx >= self.grm.prods_len() {
                        break ;
                    }
                    let ridx = self.grm.prod_to_rule(pidx);
                    let pop_num = self.grm.prod(pidx).len();
                    if pop_num >= pstack.len() {
                        break ;
                    }
                    let prior = pstack[pstack.len() - pop_num - 1];
                    match self.stable.goto(prior, ridx) {
                        Some(st) => {
                            if fuel == 0 {
                                break ;
                            }
                            fuel -= 1;
                            let ghost before = pstack@;
                            let ghost trees = trees_of(tstack@);
                            let ghost nodes_before = tstack@;
                            pstack.truncate(pstack.len() - pop_num);
                            pstack.push(st);
                            let kept = if tstack.len() >= pop_num {
                                tstack.len() - pop_num
                            } else {
                                0
                            };
                            let nodes = tstack.split_off(kept);
                            let ghost children = nodes@;
                            tstack.push(Node::Nonterm { ridx, nodes });
                            proof {
                                assert(before.take(before.len() - pop_num).last() == prior);
                                assert(pstack@ =~= before.take(before.len() - pop_num).push(st));
                                let node = tstack@[kept as int];
                                assert(children =~= nodes_before.skip(kept as int));
                                assert forall|i: int| 0 <= i < children.len() implies tree_of(children[i])
                                    == #[trigger] trees.skip(kept as int)[i] by {
                                    assert(children[i] == nodes_before[kept + i]);
                                }
                                assert(tree_of(node) == Tree::Nonterm(ridx, trees.skip(kept as int))) by {
                                    assert(node is Nonterm);
                                    assert(node->ridx == ridx);
                                    assert(node->nodes@ == children);
                                    assert(tree_of(node) is Nonterm);
                                    assert(tree_of(node)->Nonterm_0 == ridx);
                                    assert(tree_of(node)->Nonterm_1 =~= trees.skip(kept as int));
                                }
                                assert(trees_of(tstack@) =~= m.reduce_trees(trees, pidx));
                            }
                        },
                        None => {
                            break ;
                        },
                    }
                },
                _ => {
                    break ;
                },
            }
        }
        laidx
    }

    /// Parses the input from position `laidx` on, on the parser's own stack and parse trees,
    /// until the parser cannot shift. The result is the position of the lexeme at which it
    /// came to rest, and whether it accepts there; if it does not, the lexeme is an error.
    pub fn lr_rest(&self, laidx: usize, pstack: &mut Vec<StIdx>, tstack: &mut Vec<Node>) -> (res: (usize, bool))
        requires
            laidx <= self@.lexemes.len(),
        ensures
            final(pstack)@ == self@.rest(Config { stack: old(pstack)@, laidx: laidx as int }).stack,
            res.0 == self@.rest(Config { stack: old(pstack)@, laidx: laidx as int }).laidx,
            laidx <= res.0 <= self@.lexemes.len(),
            trees_of(final(tstack)@) == self@.rest_trees(
                Config { stack: old(pstack)@, laidx: laidx as int },
                trees_of(old(tstack)@),
            ),
            res.1 == (final(pstack)@.len() > 0 && self@.lr.action(final(pstack)@.last(), self@.next_tidx(res.0 as int))
                == Action::Accept),
    {
        let ghost m = self@;
        let ghost start = Config { stack: pstack@, laidx: laidx as int };
        let ghost trees0 = trees_of(tstack@);
        let llen = self.lexemes_len();
        let mut cur = laidx;
        loop
            invariant_except_break
                m.rest(start) == m.rest(Config { stack: pstack@, laidx: cur as int }),
                m.rest_trees(start, trees0) == m.rest_trees(
                    Config { stack: pstack@, laidx: cur as int },
                    trees_of(tstack@),
                ),
            invariant
                m == self@,
                llen == m.lexemes.len(),
                llen < usize::MAX,
                laidx <= cur <= llen,
            ensures
                laidx <= cur <= llen,
                pstack@ == m.rest(start).stack,
                cur == m.rest(start).laidx,
                trees_of(tstack@) == m.rest_trees(start, trees0),
            decreases llen - cur,
        {
            let ghost before = Config { stack: pstack@, laidx: cur as int };
            let end = self.lr_upto(None, cur, cur + 1, pstack, tstack);
            proof {
                let res = m.lr(None, cur as int, before.stack);
                if res.shifted {
                    lemma_sim_shifted(
                        m,
                        before.stack,
                        m.lookahead(None, cur as int).tok_id,
                        m.can_shift(None, cur as int),
                        REDUCE_LIMIT as nat,
                    );
                }
            }
            if end == cur {
                break ;
            }
            cur = end;
        }
        let accepts = if pstack.len() > 0 {
            match self.stable.action(pstack[pstack.len() - 1], self.next_tidx(cur)) {
                Action::Accept => true,
                _ => false,
            }
        } else {
            false
        };
        (cur, accepts)
    }
}

} // verus!
