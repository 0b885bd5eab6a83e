//! FOLLOW sets: for each rule, the tokens that the analysis finds behind it.

use crate::bitrows::{has_shape, lemma_grow_row, row_within, rows_bits, rows_unset, union_rows};
use crate::bits::{vob_bits, vob_from_elem, vob_get, vob_or, vob_set};
use crate::firsts::{all_nullable, nullable, symbol_first, YaccFirsts};
use crate::grammar::{Cfg, PIdx, RIdx, Symbol, TIdx, YaccGrammar};
use crate::sentences::{
    lemma_follow_stands, lemma_stands_follow, no_nullable_between, productions_reachable,
    stands_before,
};
use vob::Vob;
use vstd::prelude::*;

verus! {

/// Token `t` is found behind rule `r` in at most `n` steps. The steps are those of the
/// analysis: the end-of-input token stands behind the start rule; what can begin the symbol
/// directly behind an occurrence of `r` stands behind `r`; and where only rules that derive the
/// empty string stand behind an occurrence of `r` in a production, whatever stands behind the
/// production's rule stands behind `r`.
pub open spec fn follow_within(g: Cfg, r: int, t: int, n: nat) -> bool
    decreases n,
{
    n > 0 && ((r == g.start_rule && t == g.eof_token) || exists|p: int, i: int|
        #![trigger g.prods[p][i]]
        0 <= p < g.prods.len() && 0 <= i < g.prods[p].len() && g.prods[p][i] == Symbol::Rule(r as RIdx) && ((i
            + 1 < g.prods[p].len() && symbol_first(g, g.prods[p][i + 1], t)) || (all_nullable(
            g,
            g.prods[p].skip(i + 1),
        ) && follow_within(g, g.prod_rules[p] as int, t, (n - 1) as nat))))
}

/// Token `t` is in the FOLLOW set of rule `r`.
pub open spec fn in_follow(g: Cfg, r: int, t: int) -> bool {
    exists|n: nat| follow_within(g, r, t, n)
}

/// What can begin the symbol directly behind a rule stands behind that rule.
pub proof fn lemma_follow_next(g: Cfg, p: int, i: int, t: int)
    requires
        0 <= p < g.prods.len(),
        0 <= i,
        i + 1 < g.prods[p].len(),
        g.prods[p][i] is Rule,
        symbol_first(g, g.prods[p][i + 1], t),
    ensures
        in_follow(g, g.prods[p][i]->Rule_0 as int, t),
{
    let r = g.prods[p][i]->Rule_0 as int;
    assert(g.prods[p][i] == Symbol::Rule(r as RIdx));
    assert(follow_within(g, r, t, 1));
}

/// What stands behind a production's rule stands behind a rule at the production's end, or
/// before a tail of rules that derive the empty string.
pub proof fn lemma_follow_trailing(g: Cfg, p: int, i: int, t: int)
    requires
        0 <= p < g.prods.len(),
        0 <= i < g.prods[p].len(),
        g.prods[p][i] is Rule,
        all_nullable(g, g.prods[p].skip(i + 1)),
        in_follow(g, g.prod_rules[p] as int, t),
    ensures
        in_follow(g, g.prods[p][i]->Rule_0 as int, t),
{
    let r = g.prods[p][i]->Rule_0 as int;
    assert(g.prods[p][i] == Symbol::Rule(r as RIdx));
    let n = choose|n: nat| follow_within(g, g.prod_rules[p] as int, t, n);
    assert(follow_within(g, r, t, n + 1));
}

/// The FOLLOW sets of a grammar as a table of bits: `sets[r][t]` for rule `r` and token `t`.
pub struct FollowsTable {
    pub sets: Seq<Seq<bool>>,
}

impl FollowsTable {
    /// The table has a row of the right width for each rule.
    pub open spec fn fits(self, g: Cfg) -> bool {
        has_shape(self.sets, g.rules_len, g.tokens_len)
    }

    /// Every bit of the table is justified by the grammar.
    pub open spec fn sound(self, g: Cfg) -> bool {
        forall|r: int, t: int|
            0 <= r < g.rules_len && 0 <= t < g.tokens_len && #[trigger] self.sets[r][t] ==> in_follow(g, r, t)
    }

    /// The table already holds what the occurrence of a rule at position `i` of production `p`
    /// contributes.
    pub open spec fn closed_at(self, g: Cfg, p: int, i: int) -> bool {
        let a = g.prods[p];
        a[i] matches Symbol::Rule(q) ==> {
            &&& i + 1 < a.len() ==> forall|t: int|
                0 <= t < g.tokens_len && symbol_first(g, a[i + 1], t) ==> #[trigger] self.sets[q as int][t]
            &&& all_nullable(g, a.skip(i + 1)) ==> row_within(
                self.sets[g.prod_rules[p] as int],
                self.sets[q as int],
            )
        }
    }

    /// The table holds what every production contributes.
    pub open spec fn closed(self, g: Cfg) -> bool {
        &&& self.sets[g.start_rule as int][g.eof_token as int]
        &&& forall|p: int, i: int|
            0 <= p < g.prods.len() && 0 <= i < g.prods[p].len() ==> #[trigger] self.closed_at(g, p, i)
    }

    /// The table is exactly the FOLLOW sets of `g`.
    pub open spec fn is_follows_of(self, g: Cfg) -> bool {
        &&& self.fits(g)
        &&& forall|r: int, t: int|
            0 <= r < g.rules_len && 0 <= t < g.tokens_len ==> (#[trigger] self.sets[r][t] <==> in_follow(g, r, t))
    }
}

/// A token that can begin a symbol of the grammar is a token of the grammar.
pub proof fn lemma_symbol_first_in_range(g: Cfg, s: Symbol, t: int)
    requires
        g.wf(),
        g.symbol_ok(s),
        symbol_first(g, s, t),
    ensures
        0 <= t < g.tokens_len,
{
    match s {
        Symbol::Token(_) => {},
        Symbol::Rule(w) => {
            let n = choose|n: nat| crate::firsts::first_within(g, w as int, t, n);
            lemma_first_in_range(g, w as int, t, n);
        },
    }
}

/// A token in a FIRST set is a token of the grammar.
pub proof fn lemma_first_in_range(g: Cfg, r: int, t: int, n: nat)
    requires
        g.wf(),
        crate::firsts::first_within(g, r, t, n),
    ensures
        0 <= t < g.tokens_len,
    decreases n,
{
    let (p, i) = choose|p: int, i: int|
        #![trigger g.prods[p][i]]
        g.is_prod_of(p, r) && 0 <= i < g.prods[p].len() && all_nullable(g, g.prods[p].take(i))
            && match g.prods[p][i] {
            Symbol::Token(t2) => t2 == t,
            Symbol::Rule(q) => crate::firsts::first_within(g, q as int, t, (n - 1) as nat),
        };
    assert(g.symbol_ok(g.prods[p][i]));
    match g.prods[p][i] {
        Symbol::Token(_) => {},
        Symbol::Rule(q) => {
            lemma_first_in_range(g, q as int, t, (n - 1) as nat);
        },
    }
}

/// In a closed table every bit of the FOLLOW sets is set.
pub proof fn lemma_closed_follow(tab: FollowsTable, g: Cfg, r: int, t: int, n: nat)
    requires
        g.wf(),
        tab.fits(g),
        tab.closed(g),
        0 <= r < g.rules_len,
        follow_within(g, r, t, n),
    ensures
        0 <= t < g.tokens_len,
        tab.sets[r][t],
    decreases n,
{
    if r == g.start_rule && t == g.eof_token {
    } else {
        let (p, i) = choose|p: int, i: int|
            #![trigger g.prods[p][i]]
            0 <= p < g.prods.len() && 0 <= i < g.prods[p].len() && g.prods[p][i] == Symbol::Rule(r as RIdx) && ((i
                + 1 < g.prods[p].len() && symbol_first(g, g.prods[p][i + 1], t)) || (all_nullable(
                g,
                g.prods[p].skip(i + 1),
            ) && follow_within(g, g.prod_rules[p] as int, t, (n - 1) as nat)));
        assert(tab.closed_at(g, p, i));
        if i + 1 < g.prods[p].len() && symbol_first(g, g.prods[p][i + 1], t) {
            assert(g.symbol_ok(g.prods[p][i + 1]));
            lemma_symbol_first_in_range(g, g.prods[p][i + 1], t);
        } else {
            lemma_closed_follow(tab, g, g.prod_rules[p] as int, t, (n - 1) as nat);
            assert(tab.sets[g.prod_rules[p] as int].len() == g.tokens_len);
        }
    }
}

/// A table that is justified by the grammar and holds what every production contributes is
/// the grammar's FOLLOW sets.
pub proof fn lemma_sound_closed_is_follows(tab: FollowsTable, g: Cfg)
    requires
        g.wf(),
        tab.fits(g),
        tab.sound(g),
        tab.closed(g),
    ensures
        tab.is_follows_of(g),
{
    assert forall|r: int, t: int| 0 <= r < g.rules_len && 0 <= t < g.tokens_len implies (
    #[trigger] tab.sets[r][t] <==> in_follow(g, r, t)) by {
        if in_follow(g, r, t) {
            let n = choose|n: nat| follow_within(g, r, t, n);
            lemma_closed_follow(tab, g, r, t, n);
        }
    }
}

/// A tail of symbols consists of rules that derive the empty string exactly if its first
/// symbol is such a rule and the rest of the tail consists of such rules.
pub proof fn lemma_all_nullable_skip(g: Cfg, a: Seq<Symbol>, i: int)
    requires
        0 <= i < a.len(),
    ensures
        all_nullable(g, a.skip(i)) <==> (match a[i] {
            Symbol::Rule(q) => nullable(g, q as int),
            Symbol::Token(_) => false,
        } && all_nullable(g, a.skip(i + 1))),
{
    if all_nullable(g, a.skip(i)) {
        assert(a.skip(i)[0] == a[i]);
        assert forall|j: int| 0 <= j < a.skip(i + 1).len() implies match #[trigger] a.skip(i + 1)[j] {
            Symbol::Rule(q) => nullable(g, q as int),
            Symbol::Token(_) => false,
        } by {
            assert(a.skip(i)[j + 1] == a.skip(i + 1)[j]);
        }
    }
    if match a[i] {
        Symbol::Rule(q) => nullable(g, q as int),
        Symbol::Token(_) => false,
    } && all_nullable(g, a.skip(i + 1)) {
        assert forall|j: int| 0 <= j < a.skip(i).len() implies match #[trigger] a.skip(i)[j] {
            Symbol::Rule(q) => nullable(g, q as int),
            Symbol::Token(_) => false,
        } by {
            if j > 0 {
                assert(a.skip(i + 1)[j - 1] == a.skip(i)[j]);
            }
        }
    }
}

/// The table that the working storage of the computation holds.
pub open spec fn table_of(rows: Seq<Vob<usize>>) -> FollowsTable {
    FollowsTable { sets: rows_bits(rows) }
}

/// What holds of the table after one of its rows has grown by justified bits.
proof fn lemma_grown(g: Cfg, before: FollowsTable, after: FollowsTable, dst: int)
    requires
        g.wf(),
        before.fits(g),
        before.sound(g),
        before.sets[g.start_rule as int][g.eof_token as int],
        after.sets.len() == before.sets.len(),
        0 <= dst < g.rules_len,
        forall|r: int| 0 <= r < before.sets.len() && r != dst ==> #[trigger] after.sets[r] == before.sets[r],
        row_within(before.sets[dst], after.sets[dst]),
        forall|t: int|
            0 <= t < g.tokens_len && #[trigger] after.sets[dst][t] && !before.sets[dst][t] ==> in_follow(g, dst, t),
    ensures
        after.fits(g),
        after.sound(g),
        after.sets[g.start_rule as int][g.eof_token as int],
        rows_unset(after.sets) <= rows_unset(before.sets),
        after.sets[dst] != before.sets[dst] ==> rows_unset(after.sets) < rows_unset(before.sets),
        after.sets[dst] == before.sets[dst] ==> after == before,
{
    lemma_grow_row(before.sets, after.sets, dst);
    assert(after.fits(g)) by {
        assert forall|r: int| 0 <= r < g.rules_len implies (#[trigger] after.sets[r]).len() == g.tokens_len by {
            if r != dst {
                assert(after.sets[r] == before.sets[r]);
            }
        }
    }
    assert(after.sound(g)) by {
        assert forall|r: int, t: int|
            0 <= r < g.rules_len && 0 <= t < g.tokens_len && #[trigger] after.sets[r][t] implies in_follow(
            g,
            r,
            t,
        ) by {
            if r != dst {
                assert(after.sets[r] == before.sets[r]);
            } else if before.sets[r][t] {
            }
        }
    }
    assert(after.sets[g.start_rule as int][g.eof_token as int]) by {
        if g.start_rule != dst {
            assert(after.sets[g.start_rule as int] == before.sets[g.start_rule as int]);
        } else {
            assert(before.sets[dst][g.eof_token as int]);
        }
    }
}

/// The FOLLOW sets of a grammar.
pub struct YaccFollows {
    follows: Vec<Vob<usize>>,
    grm: Ghost<Cfg>,
}

impl View for YaccFollows {
    type V = FollowsTable;

    closed spec fn view(&self) -> FollowsTable {
        table_of(self.follows@)
    }
}

impl YaccFollows {
    #[verifier::type_invariant]
    closed spec fn inv(&self) -> bool {
        self.grm@.wf() && self@.is_follows_of(self.grm@)
    }

    /// The grammar whose FOLLOW sets these are.
    pub closed spec fn grammar(&self) -> Cfg {
        self.grm@
    }

    /// Generates the FOLLOW sets of `grm`: token `t` is in the set of rule `r` exactly if the
    /// steps of [`follow_within`] find it behind `r`.
    pub fn new(grm: &YaccGrammar) -> (follows: YaccFollows)
        ensures
            follows.grammar() == grm@,
            follows@.is_follows_of(grm@),
    {
        let rules_len = grm.rules_len() as usize;
        let tokens_len = grm.tokens_len() as usize;
        let prods_len = grm.prods_len();
        let start = grm.start_rule_idx();
        let eof = grm.eof_token_idx();
        let ghost g = grm@;
        let mut follows: Vec<Vob<usize>> = Vec::new();
        while follows.len() < rules_len
            invariant
                follows@.len() <= rules_len,
                forall|r: int|
                    0 <= r < follows@.len() ==> #[trigger] vob_bits(follows@[r]) == Seq::new(
                        tokens_len as nat,
                        |i: int| false,
                    ),
            decreases rules_len - follows.len(),
        {
            follows.push(vob_from_elem(false, tokens_len));
        }
        assert(table_of(follows@).fits(g));
        let ghost empty = table_of(follows@);
        vob_set(&mut follows[start as usize], eof as usize, true);
        proof {
            let after = table_of(follows@);
            assert(follow_within(g, start as int, eof as int, 1));
            assert(after.fits(g)) by {
                assert forall|r: int| 0 <= r < g.rules_len implies (#[trigger] after.sets[r]).len() == g.tokens_len by {
                    if r != start {
                        assert(after.sets[r] == empty.sets[r]);
                    }
                }
            }
            assert(after.sound(g)) by {
                assert forall|r: int, t: int|
                    0 <= r < g.rules_len && 0 <= t < g.tokens_len && #[trigger] after.sets[r][t] implies in_follow(
                    g,
                    r,
                    t,
                ) by {
                    if r != start {
                        assert(after.sets[r] == empty.sets[r]);
                    }
                }
            }
        }
        let firsts = YaccFirsts::new(grm);
        loop
            invariant
                g == grm@,
                g.wf(),
                rules_len == g.rules_len,
                tokens_len == g.tokens_len,
                prods_len == g.prods.len(),
                firsts.grammar() == g,
                table_of(follows@).fits(g),
                table_of(follows@).sound(g),
                table_of(follows@).sets[g.start_rule as int][g.eof_token as int],
            decreases rows_unset(table_of(follows@).sets),
        {
            let ghost tab0 = table_of(follows@);
            let mut changed = false;
            let mut pidx: PIdx = 0;
            while pidx < prods_len
                invariant
                    g == grm@,
                    g.wf(),
                    rules_len == g.rules_len,
                    tokens_len == g.tokens_len,
                    prods_len == g.prods.len(),
                    firsts.grammar() == g,
                    pidx <= prods_len,
                    table_of(follows@).fits(g),
                    table_of(follows@).sound(g),
                    table_of(follows@).sets[g.start_rule as int][g.eof_token as int],
                    rows_unset(table_of(follows@).sets) <= rows_unset(tab0.sets),
                    changed ==> rows_unset(table_of(follows@).sets) < rows_unset(tab0.sets),
                    !changed ==> table_of(follows@) == tab0,
                    !changed ==> forall|p: int, i: int|
                        0 <= p < pidx && 0 <= i < g.prods[p].len() ==> #[trigger] tab0.closed_at(g, p, i),
                decreases prods_len - pidx,
            {
                let ridx = grm.prod_to_rule(pidx);
                let prod = grm.prod(pidx);
                let ghost a = g.prods[pidx as int];
                let ghost p = pidx as int;
                // While `epsilon` is true, only rules that derive the empty string stand behind
                // the position that the walk has reached.
                let mut epsilon = true;
                let mut rem: usize = prod.len();
                assert(a.skip(a.len() as int) =~= Seq::<Symbol>::empty());
                while rem > 0
                    invariant
                        g == grm@,
                        g.wf(),
                        rules_len == g.rules_len,
                        tokens_len == g.tokens_len,
                        firsts.grammar() == g,
                        0 <= p < g.prods.len(),
                        a == g.prods[p],
                        prod@ == a,
                        ridx == g.prod_rules[p],
                        ridx < rules_len,
                        rem <= a.len(),
                        epsilon == all_nullable(g, a.skip(rem as int)),
                        table_of(follows@).fits(g),
                        table_of(follows@).sound(g),
                        table_of(follows@).sets[g.start_rule as int][g.eof_token as int],
                        rows_unset(table_of(follows@).sets) <= rows_unset(tab0.sets),
                        changed ==> rows_unset(table_of(follows@).sets) < rows_unset(tab0.sets),
                        !changed ==> table_of(follows@) == tab0,
                        !changed ==> forall|pc: int, i: int|
                            0 <= pc < p && 0 <= i < g.prods[pc].len() ==> #[trigger] tab0.closed_at(g, pc, i),
                        !changed ==> forall|i: int| rem <= i < a.len() ==> #[trigger] tab0.closed_at(g, p, i),
                    decreases rem,
                {
                    rem -= 1;
                    let sidx = rem;
                    let ghost i = sidx as int;
                    assert(g.symbol_ok(g.prods[p][i]));
                    proof {
                        lemma_all_nullable_skip(g, a, i);
                    }
                    match prod[sidx] {
                        Symbol::Token(_) => {
                            epsilon = false;
                        },
                        Symbol::Rule(s_ridx) => {
                            if epsilon {
                                let ghost before = table_of(follows@);
                                let ghost rows_before = follows@;
                                let ch = union_rows(&mut follows, s_ridx as usize, ridx as usize, tokens_len);
                                if ch {
                                    changed = true;
                                }
                                proof {
                                    let after = table_of(follows@);
                                    assert forall|r: int|
                                        0 <= r < before.sets.len() && r != s_ridx implies #[trigger] after.sets[r]
                                        == before.sets[r] by {
                                        assert(follows@[r] == rows_before[r]);
                                    }
                                    assert(row_within(before.sets[s_ridx as int], after.sets[s_ridx as int]));
                                    assert forall|t: int|
                                        0 <= t < g.tokens_len && #[trigger] after.sets[s_ridx as int][t]
                                            && !before.sets[s_ridx as int][t] implies in_follow(
                                        g,
                                        s_ridx as int,
                                        t,
                                    ) by {
                                        assert(before.sets[ridx as int][t]);
                                        lemma_follow_trailing(g, p, i, t);
                                    }
                                    lemma_grown(g, before, after, s_ridx as int);
                                    if !ch {
                                        assert(row_within(before.sets[ridx as int], before.sets[s_ridx as int])) by {
                                            assert forall|k: int|
                                                0 <= k < before.sets[ridx as int].len()
                                                    && before.sets[ridx as int][k] implies #[trigger] before.sets[s_ridx as int][k] by {
                                                assert(after.sets[s_ridx as int][k]);
                                            }
                                        }
                                    }
                                }
                            }
                            if !firsts.is_epsilon_set(s_ridx) {
                                epsilon = false;
                            }
                            if sidx < prod.len() - 1 {
                                let ghost before = table_of(follows@);
                                let ghost rows_before = follows@;
                                assert(g.symbol_ok(g.prods[p][i + 1]));
                                assert(before.sets[s_ridx as int].len() == tokens_len);
                                let ch = match prod[sidx + 1] {
                                    Symbol::Token(nxt_tidx) => vob_set(
                                        &mut follows[s_ridx as usize],
                                        nxt_tidx as usize,
                                        true,
                                    ),
                                    Symbol::Rule(nxt_ridx) => {
                                        let nxt_firsts = firsts.firsts(nxt_ridx);
                                        assert(firsts@.sets[nxt_ridx as int].len() == tokens_len);
                                        vob_or(&mut follows[s_ridx as usize], nxt_firsts)
                                    },
                                };
                                if ch {
                                    changed = true;
                                }
                                proof {
                                    let after = table_of(follows@);
                                    assert forall|r: int|
                                        0 <= r < before.sets.len() && r != s_ridx implies #[trigger] after.sets[r]
                                        == before.sets[r] by {
                                        assert(follows@[r] == rows_before[r]);
                                    }
                                    assert(row_within(before.sets[s_ridx as int], after.sets[s_ridx as int]));
                                    assert forall|t: int|
                                        0 <= t < g.tokens_len && #[trigger] after.sets[s_ridx as int][t]
                                            && !before.sets[s_ridx as int][t] implies in_follow(
                                        g,
                                        s_ridx as int,
                                        t,
                                    ) by {
                                        assert(symbol_first(g, a[i + 1], t));
                                        lemma_follow_next(g, p, i, t);
                                    }
                                    lemma_grown(g, before, after, s_ridx as int);
                                    if !ch {
                                        assert(after.sets[s_ridx as int] =~= before.sets[s_ridx as int]);
                                        assert forall|t: int|
                                            0 <= t < g.tokens_len && symbol_first(
                                                g,
                                                a[i + 1],
                                                t,
                                            ) implies #[trigger] before.sets[s_ridx as int][t] by {
                                            assert(after.sets[s_ridx as int][t]);
                                        }
                                    }
                                }
                            }
                        },
                    }
                    proof {
                        if !changed {
                            assert(tab0.closed_at(g, p, i));
                        }
                    }
                }
                pidx += 1;
            }
            if !changed {
                proof {
                    lemma_sound_closed_is_follows(tab0, g);
                }
                return YaccFollows { follows, grm: Ghost(g) };
            }
        }
    }

    /// The FOLLOW set of rule `ridx` as a bit vector over the tokens.
    pub fn follows(&self, ridx: RIdx) -> (v: &Vob<usize>)
        requires
            ridx < self.grammar().rules_len,
        ensures
            vob_bits(*v) == self@.sets[ridx as int],
            self@.is_follows_of(self.grammar()),
    {
        proof {
            use_type_invariant(self);
        }
        &self.follows[ridx as usize]
    }

    /// Whether token `tidx` is in the FOLLOW set of rule `ridx`.
    ///
    /// Where every rule with a production stands in some sentential form, a token in the set
    /// stands behind the rule in a sentential form. Where in no production a rule that derives
    /// the empty string stands between a rule and a further symbol, every token that stands
    /// behind the rule in a sentential form is in the set.
    pub fn is_set(&self, ridx: RIdx, tidx: TIdx) -> (b: bool)
        requires
            ridx < self.grammar().rules_len,
            tidx < self.grammar().tokens_len,
        ensures
            b == in_follow(self.grammar(), ridx as int, tidx as int),
            b == self@.sets[ridx as int][tidx as int],
            productions_reachable(self.grammar()) && b ==> stands_before(
                self.grammar(),
                ridx as int,
                tidx as int,
            ),
            no_nullable_between(self.grammar()) && stands_before(self.grammar(), ridx as int, tidx as int)
                ==> b,
    {
        proof {
            use_type_invariant(self);
            assert(self@.sets[ridx as int].len() == self.grm@.tokens_len);
            let g = self.grm@;
            if productions_reachable(g) && in_follow(g, ridx as int, tidx as int) {
                let n = choose|n: nat| follow_within(g, ridx as int, tidx as int, n);
                lemma_follow_stands(g, ridx as int, tidx as int, n);
            }
            if no_nullable_between(g) && stands_before(g, ridx as int, tidx as int) {
                lemma_stands_follow(g, ridx as int, tidx as int);
            }
        }
        vob_get(&self.follows[ridx as usize], tidx as usize)
    }
}

} // verus!
