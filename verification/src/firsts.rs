//! FIRST sets: for each rule, the tokens that can begin what it derives, and whether it
//! derives the empty string.

use crate::bitrows::{
    count_unset, has_shape, lemma_count_unset_within, lemma_grow_row, row_within, rows_bits,
    rows_unset, union_rows,
};
use crate::bits::{vob_bits, vob_from_elem, vob_get, vob_set};
use crate::derivation::{
    begins_with, derives_empty, lemma_first_iff_begins, lemma_nullable_iff_derives_empty,
};
use crate::grammar::{Cfg, PIdx, RIdx, Symbol, TIdx, YaccGrammar};
use vob::Vob;
use vstd::prelude::*;

verus! {

/// Rule `r` derives the empty string by a derivation of depth at most `n`: one of its
/// productions consists of rules that do so at depth below `n`.
pub open spec fn nullable_within(g: Cfg, r: int, n: nat) -> bool
    decreases n, 0nat,
{
    n > 0 && exists|p: int| #[trigger] g.is_prod_of(p, r) && all_nullable_within(g, g.prods[p], (n - 1) as nat)
}

/// Every symbol of `a` is a rule that derives the empty string at depth at most `n`.
pub open spec fn all_nullable_within(g: Cfg, a: Seq<Symbol>, n: nat) -> bool
    decreases n, 1nat,
{
    forall|j: int|
        0 <= j < a.len() ==> match #[trigger] a[j] {
            Symbol::Rule(q) => nullable_within(g, q as int, n),
            Symbol::Token(_) => false,
        }
}

/// Rule `r` derives the empty string.
pub open spec fn nullable(g: Cfg, r: int) -> bool {
    exists|n: nat| nullable_within(g, r, n)
}

/// Every symbol of `a` is a rule that derives the empty string.
pub open spec fn all_nullable(g: Cfg, a: Seq<Symbol>) -> bool {
    forall|j: int|
        0 <= j < a.len() ==> match #[trigger] a[j] {
            Symbol::Rule(q) => nullable(g, q as int),
            Symbol::Token(_) => false,
        }
}

/// Token `t` can begin what rule `r` derives, by a derivation of depth at most `n`: in one of
/// the productions of `r`, after a prefix of rules that derive the empty string, stands `t`
/// itself or a rule that `t` can begin at depth below `n`.
pub open spec fn first_within(g: Cfg, r: int, t: int, n: nat) -> bool
    decreases n,
{
    n > 0 && exists|p: int, i: int|
        #![trigger g.prods[p][i]]
        g.is_prod_of(p, r) && 0 <= i < g.prods[p].len() && all_nullable(g, g.prods[p].take(i))
            && match g.prods[p][i] {
            Symbol::Token(t2) => t2 == t,
            Symbol::Rule(q) => first_within(g, q as int, t, (n - 1) as nat),
        }
}

/// Token `t` is in the FIRST set of rule `r`.
pub open spec fn in_first(g: Cfg, r: int, t: int) -> bool {
    exists|n: nat| first_within(g, r, t, n)
}

/// Token `t` can begin what symbol `s` derives: it is `s`, or it is in the FIRST set of the
/// rule `s`.
pub open spec fn symbol_first(g: Cfg, s: Symbol, t: int) -> bool {
    match s {
        Symbol::Token(t2) => t2 == t,
        Symbol::Rule(w) => in_first(g, w as int, t),
    }
}

/// A rule that derives the empty string at some depth does so at every greater depth.
pub proof fn lemma_nullable_within_mono(g: Cfg, r: int, n: nat, m: nat)
    requires
        nullable_within(g, r, n),
        n <= m,
    ensures
        nullable_within(g, r, m),
    decreases n,
{
    let p = choose|p: int| #[trigger] g.is_prod_of(p, r) && all_nullable_within(g, g.prods[p], (n - 1) as nat);
    assert forall|j: int| 0 <= j < g.prods[p].len() implies match #[trigger] g.prods[p][j] {
        Symbol::Rule(q) => nullable_within(g, q as int, (m - 1) as nat),
        Symbol::Token(_) => false,
    } by {
        match g.prods[p][j] {
            Symbol::Rule(q) => {
                lemma_nullable_within_mono(g, q as int, (n - 1) as nat, (m - 1) as nat);
            },
            Symbol::Token(_) => {},
        }
    }
    assert(g.is_prod_of(p, r) && all_nullable_within(g, g.prods[p], (m - 1) as nat));
}

/// Rules that each derive the empty string do so within one common depth.
pub proof fn lemma_all_nullable_bounded(g: Cfg, a: Seq<Symbol>) -> (n: nat)
    requires
        all_nullable(g, a),
    ensures
        all_nullable_within(g, a, n),
    decreases a.len(),
{
    if a.len() == 0 {
        0
    } else {
        let a0 = a.drop_last();
        assert(all_nullable(g, a0)) by {
            assert forall|j: int| 0 <= j < a0.len() implies match #[trigger] a0[j] {
                Symbol::Rule(q) => nullable(g, q as int),
                Symbol::Token(_) => false,
            } by {
                assert(a0[j] == a[j]);
            }
        }
        let n0 = lemma_all_nullable_bounded(g, a0);
        let last = a[a.len() - 1];
        let q = last->Rule_0;
        assert(last is Rule && nullable(g, q as int));
        let n1 = choose|n1: nat| nullable_within(g, q as int, n1);
        let n = if n0 <= n1 {
            n1
        } else {
            n0
        };
        assert forall|j: int| 0 <= j < a.len() implies match #[trigger] a[j] {
            Symbol::Rule(q2) => nullable_within(g, q2 as int, n),
            Symbol::Token(_) => false,
        } by {
            if j < a.len() - 1 {
                assert(a0[j] == a[j]);
                match a0[j] {
                    Symbol::Rule(q2) => {
                        lemma_nullable_within_mono(g, q2 as int, n0, n);
                    },
                    Symbol::Token(_) => {},
                }
            } else {
                lemma_nullable_within_mono(g, q as int, n1, n);
            }
        }
        n
    }
}

/// A rule with a production made of rules that derive the empty string derives it too.
pub proof fn lemma_nullable_step(g: Cfg, p: int)
    requires
        0 <= p < g.prods.len(),
        all_nullable(g, g.prods[p]),
    ensures
        nullable(g, g.prod_rules[p] as int),
{
    let n = lemma_all_nullable_bounded(g, g.prods[p]);
    assert(g.is_prod_of(p, g.prod_rules[p] as int));
    assert(nullable_within(g, g.prod_rules[p] as int, n + 1));
}

/// The token or the FIRST set of the symbol behind a prefix of rules that derive the empty
/// string belongs to the FIRST set of the production's rule.
pub proof fn lemma_first_step(g: Cfg, p: int, i: int, t: int)
    requires
        0 <= p < g.prods.len(),
        0 <= i < g.prods[p].len(),
        all_nullable(g, g.prods[p].take(i)),
        symbol_first(g, g.prods[p][i], t),
    ensures
        in_first(g, g.prod_rules[p] as int, t),
{
    let r = g.prod_rules[p] as int;
    assert(g.is_prod_of(p, r));
    match g.prods[p][i] {
        Symbol::Token(t2) => {
            assert(first_within(g, r, t, 1));
        },
        Symbol::Rule(q) => {
            let n = choose|n: nat| first_within(g, q as int, t, n);
            assert(first_within(g, r, t, n + 1));
        },
    }
}

/// The FIRST sets of a grammar as a table of bits: `sets[r][t]` for rule `r` and token `t`,
/// and `epsilons[r]` for whether rule `r` derives the empty string.
pub struct FirstsTable {
    pub sets: Seq<Seq<bool>>,
    pub epsilons: Seq<bool>,
}

impl FirstsTable {
    /// The table has a row of the right width for each rule.
    pub open spec fn fits(self, g: Cfg) -> bool {
        has_shape(self.sets, g.rules_len, g.tokens_len) && self.epsilons.len() == g.rules_len
    }

    /// Every bit of the table is justified by the grammar.
    pub open spec fn sound(self, g: Cfg) -> bool {
        &&& forall|r: int, t: int|
            0 <= r < g.rules_len && 0 <= t < g.tokens_len && #[trigger] self.sets[r][t] ==> in_first(g, r, t)
        &&& forall|r: int| 0 <= r < g.rules_len && #[trigger] self.epsilons[r] ==> nullable(g, r)
    }

    /// Every symbol of `a` is a rule whose epsilon bit is set.
    pub open spec fn marks_nullable(self, a: Seq<Symbol>) -> bool {
        forall|j: int|
            0 <= j < a.len() ==> match #[trigger] a[j] {
                Symbol::Rule(q) => self.epsilons[q as int],
                Symbol::Token(_) => false,
            }
    }

    /// The table already holds what production `p` contributes.
    pub open spec fn closed_at(self, g: Cfg, p: int) -> bool {
        let a = g.prods[p];
        let r = g.prod_rules[p] as int;
        &&& forall|i: int|
            0 <= i < a.len() && self.marks_nullable(a.take(i)) ==> match #[trigger] a[i] {
                Symbol::Token(t) => self.sets[r][t as int],
                Symbol::Rule(q) => row_within(self.sets[q as int], self.sets[r]),
            }
        &&& self.marks_nullable(a) ==> self.epsilons[r]
    }

    /// The table holds what every production contributes.
    pub open spec fn closed(self, g: Cfg) -> bool {
        forall|p: int| 0 <= p < g.prods.len() ==> self.closed_at(g, p)
    }

    /// The table is exactly the FIRST sets of `g`.
    pub open spec fn is_firsts_of(self, g: Cfg) -> bool {
        &&& self.fits(g)
        &&& forall|r: int, t: int|
            0 <= r < g.rules_len && 0 <= t < g.tokens_len ==> (#[trigger] self.sets[r][t] <==> in_first(g, r, t))
        &&& forall|r: int| 0 <= r < g.rules_len ==> (#[trigger] self.epsilons[r] <==> nullable(g, r))
    }
}

/// In a closed table the epsilon bit of every rule that derives the empty string is set.
pub proof fn lemma_closed_nullable(tab: FirstsTable, g: Cfg, r: int, n: nat)
    requires
        g.wf(),
        tab.fits(g),
        tab.closed(g),
        0 <= r < g.rules_len,
        nullable_within(g, r, n),
    ensures
        tab.epsilons[r],
    decreases n,
{
    let p = choose|p: int| #[trigger] g.is_prod_of(p, r) && all_nullable_within(g, g.prods[p], (n - 1) as nat);
    let a = g.prods[p];
    assert forall|j: int| 0 <= j < a.len() implies match #[trigger] a[j] {
        Symbol::Rule(q) => tab.epsilons[q as int],
        Symbol::Token(_) => false,
    } by {
        assert(g.symbol_ok(g.prods[p][j]));
        match a[j] {
            Symbol::Rule(q) => {
                lemma_closed_nullable(tab, g, q as int, (n - 1) as nat);
            },
            Symbol::Token(_) => {},
        }
    }
    assert(tab.closed_at(g, p));
}

/// In a closed table every bit of the FIRST sets is set.
pub proof fn lemma_closed_first(tab: FirstsTable, g: Cfg, r: int, t: int, n: nat)
    requires
        g.wf(),
        tab.fits(g),
        tab.closed(g),
        0 <= r < g.rules_len,
        first_within(g, r, t, n),
    ensures
        0 <= t < g.tokens_len,
        tab.sets[r][t],
    decreases n,
{
    let (p, i) = choose|p: int, i: int|
        #![trigger g.prods[p][i]]
        g.is_prod_of(p, r) && 0 <= i < g.prods[p].len() && all_nullable(g, g.prods[p].take(i))
            && match g.prods[p][i] {
            Symbol::Token(t2) => t2 == t,
            Symbol::Rule(q) => first_within(g, q as int, t, (n - 1) as nat),
        };
    let a = g.prods[p];
    assert(tab.marks_nullable(a.take(i))) by {
        assert forall|j: int| 0 <= j < a.take(i).len() implies match #[trigger] a.take(i)[j] {
            Symbol::Rule(q) => tab.epsilons[q as int],
            Symbol::Token(_) => false,
        } by {
            assert(a.take(i)[j] == a[j]);
            assert(g.symbol_ok(g.prods[p][j]));
            match a[j] {
                Symbol::Rule(q) => {
                    let m = choose|m: nat| nullable_within(g, q as int, m);
                    lemma_closed_nullable(tab, g, q as int, m);
                },
                Symbol::Token(_) => {},
            }
        }
    }
    assert(tab.closed_at(g, p));
    assert(g.symbol_ok(g.prods[p][i]));
    match a[i] {
        Symbol::Token(t2) => {},
        Symbol::Rule(q) => {
            lemma_closed_first(tab, g, q as int, t, (n - 1) as nat);
            assert(row_within(tab.sets[q as int], tab.sets[r]));
            assert(tab.sets[q as int].len() == g.tokens_len);
        },
    }
}

/// A table that is justified by the grammar and holds what every production contributes is
/// the grammar's FIRST sets.
pub proof fn lemma_sound_closed_is_firsts(tab: FirstsTable, g: Cfg)
    requires
        g.wf(),
        tab.fits(g),
        tab.sound(g),
        tab.closed(g),
    ensures
        tab.is_firsts_of(g),
{
    assert forall|r: int, t: int| 0 <= r < g.rules_len && 0 <= t < g.tokens_len implies (
    #[trigger] tab.sets[r][t] <==> in_first(g, r, t)) by {
        if in_first(g, r, t) {
            let n = choose|n: nat| first_within(g, r, t, n);
            lemma_closed_first(tab, g, r, t, n);
        }
    }
    assert forall|r: int| 0 <= r < g.rules_len implies (#[trigger] tab.epsilons[r] <==> nullable(g, r)) by {
        if nullable(g, r) {
            let n = choose|n: nat| nullable_within(g, r, n);
            lemma_closed_nullable(tab, g, r, n);
        }
    }
}

/// The table that the working storage of the computation holds.
pub open spec fn table_of(rows: Seq<Vob<usize>>, eps: Vob<usize>) -> FirstsTable {
    FirstsTable { sets: rows_bits(rows), epsilons: vob_bits(eps) }
}

/// The number of bits of a table that are still unset.
pub open spec fn table_unset(tab: FirstsTable) -> nat {
    rows_unset(tab.sets) + count_unset(tab.epsilons)
}

/// The FIRST sets of a grammar.
pub struct YaccFirsts {
    firsts: Vec<Vob<usize>>,
    epsilons: Vob<usize>,
    grm: Ghost<Cfg>,
}

impl View for YaccFirsts {
    type V = FirstsTable;

    closed spec fn view(&self) -> FirstsTable {
        table_of(self.firsts@, self.epsilons)
    }
}

impl YaccFirsts {
    #[verifier::type_invariant]
    closed spec fn inv(&self) -> bool {
        self.grm@.wf() && self@.is_firsts_of(self.grm@)
    }

    /// The grammar whose FIRST sets these are.
    pub closed spec fn grammar(&self) -> Cfg {
        self.grm@
    }

    /// Computes the FIRST sets of `grm`: token `t` is in the set of rule `r` exactly if `t` can
    /// begin what `r` derives, and the epsilon bit of `r` is set exactly if `r` derives the
    /// empty string.
    pub fn new(grm: &YaccGrammar) -> (firsts: YaccFirsts)
        ensures
            firsts.grammar() == grm@,
            firsts@.is_firsts_of(grm@),
    {
        let rules_len = grm.rules_len() as usize;
        let tokens_len = grm.tokens_len() as usize;
        let prods_len = grm.prods_len();
        let ghost g = grm@;
        let mut firsts: Vec<Vob<usize>> = Vec::new();
        while firsts.len() < rules_len
            invariant
                firsts@.len() <= rules_len,
                forall|r: int|
                    0 <= r < firsts@.len() ==> #[trigger] vob_bits(firsts@[r]) == Seq::new(
                        tokens_len as nat,
                        |i: int| false,
                    ),
            decreases rules_len - firsts.len(),
        {
            firsts.push(vob_from_elem(false, tokens_len));
        }
        let mut epsilons = vob_from_elem(false, rules_len);
        assert(table_of(firsts@, epsilons).fits(g));
        assert(table_of(firsts@, epsilons).sound(g));
        loop
            invariant
                g == grm@,
                g.wf(),
                rules_len == g.rules_len,
                tokens_len == g.tokens_len,
                prods_len == g.prods.len(),
                table_of(firsts@, epsilons).fits(g),
                table_of(firsts@, epsilons).sound(g),
            decreases table_unset(table_of(firsts@, epsilons)),
        {
            let ghost tab0 = table_of(firsts@, epsilons);
            let mut changed = false;
            let mut pidx: PIdx = 0;
            while pidx < prods_len
                invariant
                    g == grm@,
                    g.wf(),
                    rules_len == g.rules_len,
                    tokens_len == g.tokens_len,
                    prods_len == g.prods.len(),
                    pidx <= prods_len,
                    table_of(firsts@, epsilons).fits(g),
                    table_of(firsts@, epsilons).sound(g),
                    table_unset(table_of(firsts@, epsilons)) <= table_unset(tab0),
                    changed ==> table_unset(table_of(firsts@, epsilons)) < table_unset(tab0),
                    !changed ==> table_of(firsts@, epsilons) == tab0,
                    !changed ==> forall|p: int| 0 <= p < pidx ==> tab0.closed_at(g, p),
                decreases prods_len - pidx,
            {
                let ridx = grm.prod_to_rule(pidx);
                let prod = grm.prod(pidx);
                let ghost a = g.prods[pidx as int];
                let ghost p = pidx as int;
                let mut sidx: usize = 0;
                let mut walking = true;
                while walking && sidx < prod.len()
                    invariant
                        g == grm@,
                        g.wf(),
                        rules_len == g.rules_len,
                        tokens_len == g.tokens_len,
                        0 <= p < g.prods.len(),
                        a == g.prods[p],
                        prod@ == a,
                        ridx == g.prod_rules[p],
                        ridx < rules_len,
                        sidx <= a.len(),
                        !walking ==> sidx < a.len(),
                        table_of(firsts@, epsilons).fits(g),
                        table_of(firsts@, epsilons).sound(g),
                        table_unset(table_of(firsts@, epsilons)) <= table_unset(tab0),
                        changed ==> table_unset(table_of(firsts@, epsilons)) < table_unset(tab0),
                        !changed ==> table_of(firsts@, epsilons) == tab0,
                        !changed ==> forall|pc: int| 0 <= pc < p ==> tab0.closed_at(g, pc),
                        table_of(firsts@, epsilons).marks_nullable(a.take(sidx as int)),
                        !walking ==> !table_of(firsts@, epsilons).marks_nullable(a.take(sidx + 1)),
                        !changed ==> forall|i: int|
                            0 <= i < (if walking {
                                sidx as int
                            } else {
                                sidx + 1
                            }) && tab0.marks_nullable(a.take(i)) ==> match #[trigger] a[i] {
                                Symbol::Token(t) => tab0.sets[ridx as int][t as int],
                                Symbol::Rule(q) => row_within(tab0.sets[q as int], tab0.sets[ridx as int]),
                            },
                    decreases
                            (if walking {
                                1int
                            } else {
                                0int
                            }),
                            a.len() - sidx,
                {
                    let ghost before = table_of(firsts@, epsilons);
                    let ghost rows_before = firsts@;
                    let ghost i = sidx as int;
                    assert(g.symbol_ok(g.prods[p][i]));
                    proof {
                        assert(all_nullable(g, a.take(i))) by {
                            assert forall|j: int| 0 <= j < a.take(i).len() implies match #[trigger] a.take(i)[j] {
                                Symbol::Rule(q) => nullable(g, q as int),
                                Symbol::Token(_) => false,
                            } by {
                                assert(g.symbol_ok(g.prods[p][j]));
                                assert(a.take(i)[j] == a[j]);
                            }
                        }
                    }
                    match prod[sidx] {
                        Symbol::Token(t) => {
                            assert(before.sets[ridx as int].len() == tokens_len);
                            let ch = vob_set(&mut firsts[ridx as usize], t as usize, true);
                            if ch {
                                changed = true;
                            }
                            walking = false;
                            proof {
                                let after = table_of(firsts@, epsilons);
                                assert(row_within(before.sets[ridx as int], after.sets[ridx as int]));
                                lemma_grow_row(before.sets, after.sets, ridx as int);
                                lemma_first_step(g, p, i, t as int);
                                assert(after.fits(g)) by {
                                    assert forall|r: int| 0 <= r < g.rules_len implies (#[trigger] after.sets[r]).len()
                                        == g.tokens_len by {
                                        if r != ridx {
                                            assert(after.sets[r] == before.sets[r]);
                                        }
                                    }
                                }
                                assert(after.sound(g)) by {
                                    assert forall|r: int, t2: int|
                                        0 <= r < g.rules_len && 0 <= t2 < g.tokens_len
                                            && #[trigger] after.sets[r][t2] implies in_first(g, r, t2) by {
                                        if r != ridx {
                                            assert(after.sets[r] == before.sets[r]);
                                        } else if t2 != t {
                                            assert(before.sets[r][t2]);
                                        }
                                    }
                                }
                                assert(!after.marks_nullable(a.take(i + 1))) by {
                                    assert(a.take(i + 1)[i] == a[i]);
                                }
                                if !ch {
                                    assert(after.sets[ridx as int] =~= before.sets[ridx as int]);
                                }
                            }
                        },
                        Symbol::Rule(q) => {
                            let ch = union_rows(&mut firsts, ridx as usize, q as usize, tokens_len);
                            if ch {
                                changed = true;
                            }
                            proof {
                                let after = table_of(firsts@, epsilons);
                                assert(row_within(before.sets[ridx as int], after.sets[ridx as int]));
                                assert forall|r: int| 0 <= r < before.sets.len() && r != ridx implies #[trigger] after.sets[r]
                                    == before.sets[r] by {
                                    assert(firsts@[r] == rows_before[r]);
                                }
                                lemma_grow_row(before.sets, after.sets, ridx as int);
                                assert(after.sound(g)) by {
                                    assert forall|r: int, t2: int|
                                        0 <= r < g.rules_len && 0 <= t2 < g.tokens_len
                                            && #[trigger] after.sets[r][t2] implies in_first(g, r, t2) by {
                                        if r != ridx {
                                            assert(after.sets[r] == before.sets[r]);
                                        } else if !before.sets[r][t2] {
                                            assert(before.sets[q as int][t2]);
                                            lemma_first_step(g, p, i, t2);
                                        }
                                    }
                                }
                                if !ch {
                                    assert(after == before);
                                    assert(row_within(before.sets[q as int], before.sets[ridx as int])) by {
                                        assert forall|k: int|
                                            0 <= k < before.sets[q as int].len()
                                                && before.sets[q as int][k] implies #[trigger] before.sets[ridx as int][k] by {
                                            assert(after.sets[ridx as int][k]);
                                        }
                                    }
                                }
                            }
                            if !vob_get(&epsilons, q as usize) {
                                walking = false;
                                proof {
                                    let after = table_of(firsts@, epsilons);
                                    assert(!after.marks_nullable(a.take(i + 1))) by {
                                        assert(a.take(i + 1)[i] == a[i]);
                                    }
                                }
                            } else {
                                sidx += 1;
                                proof {
                                    let after = table_of(firsts@, epsilons);
                                    assert(after.marks_nullable(a.take(i + 1))) by {
                                        assert forall|j: int| 0 <= j < a.take(i + 1).len() implies match #[trigger] a.take(
                                            i + 1,
                                        )[j] {
                                            Symbol::Rule(q2) => after.epsilons[q2 as int],
                                            Symbol::Token(_) => false,
                                        } by {
                                            if j < i {
                                                assert(a.take(i)[j] == a[j]);
                                            }
                                        }
                                    }
                                }
                            }
                        },
                    }
                }
                if walking {
                    let ghost before = table_of(firsts@, epsilons);
                    assert(a.take(a.len() as int) =~= a);
                    let ch = vob_set(&mut epsilons, ridx as usize, true);
                    if ch {
                        changed = true;
                    }
                    proof {
                        let after = table_of(firsts@, epsilons);
                        assert(row_within(before.epsilons, after.epsilons));
                        lemma_count_unset_within(before.epsilons, after.epsilons);
                        assert(all_nullable(g, a)) by {
                            assert forall|j: int| 0 <= j < a.len() implies match #[trigger] a[j] {
                                Symbol::Rule(q) => nullable(g, q as int),
                                Symbol::Token(_) => false,
                            } by {
                                assert(g.symbol_ok(g.prods[p][j]));
                            }
                        }
                        lemma_nullable_step(g, p);
                        if !ch {
                            assert(after.epsilons =~= before.epsilons);
                        }
                    }
                }
                proof {
                    if !changed {
                        assert(tab0.closed_at(g, p)) by {
                            assert forall|i: int|
                                0 <= i < a.len() && tab0.marks_nullable(a.take(i)) implies match #[trigger] a[i] {
                                Symbol::Token(t) => tab0.sets[ridx as int][t as int],
                                Symbol::Rule(q) => row_within(tab0.sets[q as int], tab0.sets[ridx as int]),
                            } by {
                                if !walking && i > sidx {
                                    assert(a.take(i)[sidx as int] == a[sidx as int]);
                                    assert(a.take(sidx + 1)[sidx as int] == a[sidx as int]);
                                    assert forall|j: int| 0 <= j < a.take(sidx + 1).len() implies match #[trigger] a.take(
                                        sidx + 1,
                                    )[j] {
                                        Symbol::Rule(q2) => tab0.epsilons[q2 as int],
                                        Symbol::Token(_) => false,
                                    } by {
                                        assert(a.take(i)[j] == a[j]);
                                    }
                                }
                            }
                        }
                    }
                }
                pidx += 1;
            }
            if !changed {
                proof {
                    lemma_sound_closed_is_firsts(tab0, g);
                }
                return YaccFirsts { firsts, epsilons, grm: Ghost(g) };
            }
        }
    }

    /// The FIRST set of rule `ridx` as a bit vector over the tokens.
    pub fn firsts(&self, ridx: RIdx) -> (v: &Vob<usize>)
        requires
            ridx < self.grammar().rules_len,
        ensures
            vob_bits(*v) == self@.sets[ridx as int],
            self@.is_firsts_of(self.grammar()),
    {
        proof {
            use_type_invariant(self);
        }
        &self.firsts[ridx as usize]
    }

    /// Whether token `tidx` is in the FIRST set of rule `ridx`: whether some production of the
    /// rule derives a sequence that starts with the token.
    pub fn is_set(&self, ridx: RIdx, tidx: TIdx) -> (b: bool)
        requires
            ridx < self.grammar().rules_len,
            tidx < self.grammar().tokens_len,
        ensures
            b == begins_with(self.grammar(), ridx as int, tidx as int),
            b == in_first(self.grammar(), ridx as int, tidx as int),
            b == self@.sets[ridx as int][tidx as int],
    {
        proof {
            use_type_invariant(self);
            assert(self@.sets[ridx as int].len() == self.grm@.tokens_len);
            lemma_first_iff_begins(self.grm@, ridx as int, tidx as int);
        }
        vob_get(&self.firsts[ridx as usize], tidx as usize)
    }

    /// Whether rule `ridx` derives the empty string.
    pub fn is_epsilon_set(&self, ridx: RIdx) -> (b: bool)
        requires
            ridx < self.grammar().rules_len,
        ensures
            b == derives_empty(self.grammar(), ridx as int),
            b == nullable(self.grammar(), ridx as int),
            b == self@.epsilons[ridx as int],
    {
        proof {
            use_type_invariant(self);
            lemma_nullable_iff_derives_empty(self.grm@, ridx as int);
        }
        vob_get(&self.epsilons, ridx as usize)
    }
}

} // verus!
