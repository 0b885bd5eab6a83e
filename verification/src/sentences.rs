//! Sentential forms: the sequences that the start rule derives, and what the FOLLOW sets mean
//! in terms of them.

use crate::derivation::{
    lemma_all_nullable_derive_empty, lemma_begins_position, lemma_derive_empty_all_nullable,
    lemma_derives_concat, lemma_derives_cons, lemma_derives_self, lemma_first_iff_begins,
    lemma_symbol_derives_trans, symbol_derives, symbols_derive,
};
use crate::firsts::{all_nullable, nullable, symbol_first};
use crate::follows::{follow_within, in_follow, lemma_follow_next, lemma_follow_trailing};
use crate::grammar::{Cfg, RIdx, Symbol, TIdx};
use vstd::prelude::*;

verus! {

/// Behind position `i` of the sequence `w` stands token `t`, or nothing where `t` is the
/// end-of-input token.
pub open spec fn followed_by(g: Cfg, w: Seq<Symbol>, i: int, t: int) -> bool {
    (i + 1 < w.len() && w[i + 1] == Symbol::Token(t as TIdx)) || (i + 1 == w.len() && t == g.eof_token)
}

/// Some sentential form that the start rule derives holds rule `r` directly before token `t`,
/// or at its end where `t` is the end-of-input token.
pub open spec fn stands_before(g: Cfg, r: int, t: int) -> bool {
    let s = Symbol::Rule(g.start_rule);
    exists|w: Seq<Symbol>, d: nat, i: int|
        #![trigger symbol_derives(g, s, w, d), w[i]]
        symbol_derives(g, s, w, d) && 0 <= i < w.len() && w[i] == Symbol::Rule(r as RIdx) && followed_by(
            g,
            w,
            i,
            t,
        )
}

/// Some sentential form that the start rule derives holds rule `r`.
pub open spec fn reachable(g: Cfg, r: int) -> bool {
    let s = Symbol::Rule(g.start_rule);
    exists|w: Seq<Symbol>, d: nat, i: int|
        #![trigger symbol_derives(g, s, w, d), w[i]]
        symbol_derives(g, s, w, d) && 0 <= i < w.len() && w[i] == Symbol::Rule(r as RIdx)
}

/// Every rule that has a production stands in some sentential form.
pub open spec fn productions_reachable(g: Cfg) -> bool {
    forall|p: int| 0 <= p < g.prods.len() ==> reachable(g, #[trigger] g.prod_rules[p] as int)
}

/// In no production does a rule that derives the empty string stand between a rule and a
/// further symbol.
pub open spec fn no_nullable_between(g: Cfg) -> bool {
    forall|p: int, i: int|
        0 <= p < g.prods.len() && 0 <= i && i + 2 < g.prods[p].len() && (#[trigger] g.prods[p][i]) is Rule
            ==> !(match g.prods[p][i + 1] {
            Symbol::Rule(q) => nullable(g, q as int),
            Symbol::Token(_) => false,
        })
}

/// Whatever stands behind rule `a` stands behind rule `r`.
pub open spec fn follow_passes(g: Cfg, a: int, r: int) -> bool {
    forall|t: int| in_follow(g, a, t) ==> in_follow(g, r, t)
}

/// Rewriting one symbol of a sequence.
pub proof fn lemma_replace_at(g: Cfg, w: Seq<Symbol>, j: int, v: Seq<Symbol>, d: nat)
    requires
        0 <= j < w.len(),
        symbol_derives(g, w[j], v, d),
    ensures
        symbols_derive(g, w, w.take(j) + v + w.skip(j + 1), d),
{
    let pre = w.take(j);
    let post = w.skip(j + 1);
    let tail = w.skip(j);
    lemma_derives_self(g, pre, d);
    lemma_derives_self(g, post, d);
    assert(tail[0] == w[j]);
    assert(tail.skip(1) =~= post);
    lemma_derives_cons(g, tail, v, post, d);
    lemma_derives_concat(g, pre, tail, pre, v + post, d);
    assert(pre + tail =~= w);
    assert(pre + (v + post) =~= pre + v + post);
}

/// Rewriting, in a sentential form, the rule at position `j` by what one of its productions
/// derives gives a sentential form.
pub proof fn lemma_expand_in_sentence(
    g: Cfg,
    w: Seq<Symbol>,
    d: nat,
    j: int,
    p: int,
    v: Seq<Symbol>,
    e: nat,
)
    requires
        symbol_derives(g, Symbol::Rule(g.start_rule), w, d),
        0 <= j < w.len(),
        0 <= p < g.prods.len(),
        w[j] == Symbol::Rule(g.prod_rules[p]),
        symbols_derive(g, g.prods[p], v, e),
    ensures
        symbol_derives(g, Symbol::Rule(g.start_rule), w.take(j) + v + w.skip(j + 1), d + e + 1),
{
    assert(g.is_prod_of(p, w[j]->Rule_0 as int));
    assert(symbol_derives(g, w[j], v, e + 1));
    lemma_replace_at(g, w, j, v, e + 1);
    lemma_symbol_derives_trans(g, Symbol::Rule(g.start_rule), w, w.take(j) + v + w.skip(j + 1), d, e + 1);
}

/// A token that the analysis finds behind a rule stands behind it in a sentential form,
/// provided that the rules with productions stand in sentential forms at all.
pub proof fn lemma_follow_stands(g: Cfg, r: int, t: int, n: nat)
    requires
        g.wf(),
        productions_reachable(g),
        0 <= r < g.rules_len,
        follow_within(g, r, t, n),
    ensures
        stands_before(g, r, t),
    decreases n,
{
    let s = Symbol::Rule(g.start_rule);
    if r == g.start_rule && t == g.eof_token {
        let w = seq![s];
        assert(symbol_derives(g, s, w, 0));
        assert(w[0] == Symbol::Rule(r as RIdx));
        assert(followed_by(g, w, 0, t));
    } else {
        let (p, i) = choose|p: int, i: int|
            #![trigger g.prods[p][i]]
            0 <= p < g.prods.len() && 0 <= i < g.prods[p].len() && g.prods[p][i] == Symbol::Rule(r as RIdx) && ((i
                + 1 < g.prods[p].len() && symbol_first(g, g.prods[p][i + 1], t)) || (all_nullable(
                g,
                g.prods[p].skip(i + 1),
            ) && follow_within(g, g.prod_rules[p] as int, t, (n - 1) as nat)));
        let a = g.prods[p];
        let ra = g.prod_rules[p];
        if i + 1 < a.len() && symbol_first(g, a[i + 1], t) {
            assert(reachable(g, ra as int));
            let (w0, d0, j) = choose|w: Seq<Symbol>, d: nat, i: int|
                #![trigger symbol_derives(g, s, w, d), w[i]]
                symbol_derives(g, s, w, d) && 0 <= i < w.len() && w[i] == Symbol::Rule(ra as int as RIdx);
            assert(g.symbol_ok(g.prods[p][i + 1]));
            crate::follows::lemma_symbol_first_in_range(g, a[i + 1], t);
            // A sequence derived from the production in which the token stands behind the rule.
            let (v, e): (Seq<Symbol>, nat) = match a[i + 1] {
                Symbol::Token(_) => {
                    lemma_derives_self(g, a, 0);
                    (a, 0nat)
                },
                Symbol::Rule(x) => {
                    lemma_first_iff_begins(g, x as int, t);
                    let (pb, w1, d1) = choose|pb: int, w1: Seq<Symbol>, d1: nat|
                        g.is_prod_of(pb, x as int) && #[trigger] symbols_derive(g, g.prods[pb], w1, d1)
                            && w1.len() > 0 && w1[0] == Symbol::Token(t as TIdx);
                    assert(g.is_prod_of(pb, a[i + 1]->Rule_0 as int));
                    assert(symbol_derives(g, a[i + 1], w1, d1 + 1));
                    lemma_replace_at(g, a, i + 1, w1, d1 + 1);
                    (a.take(i + 1) + w1 + a.skip(i + 2), d1 + 1)
                },
            };
            assert(symbols_derive(g, a, v, e));
            assert(i + 1 < v.len() && v[i] == Symbol::Rule(r as RIdx) && v[i + 1] == Symbol::Token(t as TIdx));
            lemma_expand_in_sentence(g, w0, d0, j, p, v, e);
            let w = w0.take(j) + v + w0.skip(j + 1);
            assert(w[j + i] == v[i]);
            assert(w[j + i + 1] == v[i + 1]);
            assert(symbol_derives(g, s, w, d0 + e + 1) && 0 <= j + i < w.len() && w[j + i] == Symbol::Rule(
                r as RIdx,
            ) && followed_by(g, w, j + i, t));
        } else {
            lemma_follow_stands(g, ra as int, t, (n - 1) as nat);
            let (w0, d0, j) = choose|w: Seq<Symbol>, d: nat, i: int|
                #![trigger symbol_derives(g, s, w, d), w[i]]
                symbol_derives(g, s, w, d) && 0 <= i < w.len() && w[i] == Symbol::Rule(ra as int as RIdx)
                    && followed_by(g, w, i, t);
            let e = lemma_all_nullable_derive_empty(g, a.skip(i + 1));
            let v = a.take(i + 1);
            lemma_derives_self(g, v, e);
            lemma_derives_concat(g, v, a.skip(i + 1), v, Seq::<Symbol>::empty(), e);
            assert(v + a.skip(i + 1) =~= a);
            assert(v + Seq::<Symbol>::empty() =~= v);
            lemma_expand_in_sentence(g, w0, d0, j, p, v, e);
            let w = w0.take(j) + v + w0.skip(j + 1);
            assert(w[j + i] == v[i]);
            if j + 1 < w0.len() {
                assert(w[j + i + 1] == w0[j + 1]);
            }
            assert(symbol_derives(g, s, w, d0 + e + 1) && 0 <= j + i < w.len() && w[j + i] == Symbol::Rule(
                r as RIdx,
            ) && followed_by(g, w, j + i, t));
        }
    }
}

/// What the occurrence of rule `r` at position `i` of a sequence derived from the rule `s`
/// gives to the FOLLOW set of `r`.
pub proof fn lemma_occurrence_in_symbol(g: Cfg, s: Symbol, w: Seq<Symbol>, d: nat, i: int, r: RIdx)
    requires
        g.wf(),
        no_nullable_between(g),
        s is Rule,
        g.symbol_ok(s),
        symbol_derives(g, s, w, d),
        0 <= i < w.len(),
        w[i] == Symbol::Rule(r),
    ensures
        i + 1 < w.len() && w[i + 1] is Token ==> in_follow(g, r as int, w[i + 1]->Token_0 as int),
        i + 1 == w.len() ==> follow_passes(g, s->Rule_0 as int, r as int),
    decreases d, 0nat, 0nat,
{
    if w.len() == 1 && w[0] == s {
    } else {
        let p = choose|p: int| #[trigger]
            g.is_prod_of(p, s->Rule_0 as int) && symbols_derive(g, g.prods[p], w, (d - 1) as nat);
        assert(g.prods[p].skip(0) =~= g.prods[p]);
        lemma_occurrence_in_production(g, p, 0, w, (d - 1) as nat, i, r);
    }
}

/// What the occurrence of rule `r` at position `i` of a sequence derived from the symbols of
/// production `p` from position `m` on gives to the FOLLOW set of `r`.
pub proof fn lemma_occurrence_in_production(
    g: Cfg,
    p: int,
    m: int,
    w: Seq<Symbol>,
    d: nat,
    i: int,
    r: RIdx,
)
    requires
        g.wf(),
        no_nullable_between(g),
        0 <= p < g.prods.len(),
        0 <= m <= g.prods[p].len(),
        symbols_derive(g, g.prods[p].skip(m), w, d),
        0 <= i < w.len(),
        w[i] == Symbol::Rule(r),
    ensures
        i + 1 < w.len() && w[i + 1] is Token ==> in_follow(g, r as int, w[i + 1]->Token_0 as int),
        i + 1 == w.len() ==> follow_passes(g, g.prod_rules[p] as int, r as int),
    decreases d, 1nat, g.prods[p].len() - m,
{
    let a = g.prods[p];
    let ra = g.prod_rules[p] as int;
    let tail = a.skip(m);
    let k0 = choose|k: int|
        #![trigger w.take(k)]
        0 <= k <= w.len() && symbol_derives(g, tail[0], w.take(k), d) && symbols_derive(
            g,
            tail.skip(1),
            w.skip(k),
            d,
        );
    assert(tail[0] == a[m]);
    assert(tail.skip(1) =~= a.skip(m + 1));
    assert(g.symbol_ok(g.prods[p][m]));
    if i < k0 {
        let w0 = w.take(k0);
        let w1 = w.skip(k0);
        assert(w0[i] == w[i]);
        lemma_occurrence_in_symbol(g, a[m], w0, d, i, r);
        let q = a[m]->Rule_0 as int;
        if i + 1 < k0 {
            assert(w0[i + 1] == w[i + 1]);
        } else if w1.len() > 0 {
            assert(w1[0] == w[i + 1]);
            if w[i + 1] is Token {
                let t = w[i + 1]->Token_0 as int;
                assert forall|j: int| 0 <= j < a.skip(m + 1).len() implies g.symbol_ok(
                    #[trigger] a.skip(m + 1)[j],
                ) by {
                    assert(g.symbol_ok(g.prods[p][m + 1 + j]));
                }
                let i1 = lemma_begins_position(g, a.skip(m + 1), w1, d, t);
                if i1 == 0 {
                    assert(a.skip(m + 1)[0] == a[m + 1]);
                    lemma_follow_next(g, p, m, t);
                } else {
                    assert(a.skip(m + 1).take(i1)[0] == a[m + 1]);
                    assert(m + 2 < a.len());
                    assert(g.prods[p][m] is Rule);
                    assert(false);
                }
            }
        } else {
            assert(w1 =~= Seq::<Symbol>::empty());
            lemma_derive_empty_all_nullable(g, a.skip(m + 1), d);
            assert forall|t: int| in_follow(g, ra, t) implies in_follow(g, r as int, t) by {
                lemma_follow_trailing(g, p, m, t);
            }
        }
    } else {
        let w1 = w.skip(k0);
        assert(w1[i - k0] == w[i]);
        lemma_occurrence_in_production(g, p, m + 1, w1, d, i - k0, r);
        if i + 1 < w.len() {
            assert(w1[i - k0 + 1] == w[i + 1]);
        }
    }
}

/// A token that stands behind a rule in a sentential form is found behind it by the analysis,
/// provided that in no production a rule that derives the empty string stands between a rule
/// and a further symbol.
pub proof fn lemma_stands_follow(g: Cfg, r: int, t: int)
    requires
        g.wf(),
        no_nullable_between(g),
        0 <= r < g.rules_len,
        0 <= t < g.tokens_len,
        stands_before(g, r, t),
    ensures
        in_follow(g, r, t),
{
    let s = Symbol::Rule(g.start_rule);
    let (w, d, i) = choose|w: Seq<Symbol>, d: nat, i: int|
        #![trigger symbol_derives(g, s, w, d), w[i]]
        symbol_derives(g, s, w, d) && 0 <= i < w.len() && w[i] == Symbol::Rule(r as RIdx) && followed_by(
            g,
            w,
            i,
            t,
        );
    lemma_occurrence_in_symbol(g, s, w, d, i, r as RIdx);
    if i + 1 == w.len() {
        assert(follow_within(g, g.start_rule as int, g.eof_token as int, 1));
        assert(in_follow(g, g.start_rule as int, t));
    }
}

} // verus!
