//! Derivations: what a grammar's symbols can be rewritten to, and what the FIRST sets mean in
//! terms of them.
//!
//! A derivation is taken as a whole, as the tree that it draws: a symbol derives the sequence
//! that consists of itself, and a rule derives whatever the symbols of one of its productions
//! derive, one after the other. The sequences derived are sentential forms: they may hold
//! rules as well as tokens.

use crate::firsts::{
    all_nullable, all_nullable_within, first_within, in_first, lemma_all_nullable_bounded,
    lemma_first_step, nullable, nullable_within, symbol_first,
};
use crate::grammar::{Cfg, RIdx, Symbol, TIdx};
use vstd::prelude::*;

verus! {

/// Symbol `s` derives the sequence `w` by a derivation of depth at most `d`.
pub open spec fn symbol_derives(g: Cfg, s: Symbol, w: Seq<Symbol>, d: nat) -> bool
    decreases d, 0nat, 0nat,
{
    (w.len() == 1 && w[0] == s) || (d > 0 && s is Rule && exists|p: int| #[trigger]
        g.is_prod_of(p, s->Rule_0 as int) && symbols_derive(g, g.prods[p], w, (d - 1) as nat))
}

/// The symbols of `a` derive, one after the other, the parts of `w`, each by a derivation of
/// depth at most `d`.
pub open spec fn symbols_derive(g: Cfg, a: Seq<Symbol>, w: Seq<Symbol>, d: nat) -> bool
    decreases d, 1nat, a.len(),
{
    if a.len() == 0 {
        w.len() == 0
    } else {
        exists|k: int|
            #![trigger w.take(k)]
            0 <= k <= w.len() && symbol_derives(g, a[0], w.take(k), d) && symbols_derive(
                g,
                a.skip(1),
                w.skip(k),
                d,
            )
    }
}

/// Rule `r` derives the empty string.
pub open spec fn derives_empty(g: Cfg, r: int) -> bool {
    let s = Symbol::Rule(r as RIdx);
    exists|d: nat| symbol_derives(g, s, Seq::<Symbol>::empty(), d)
}

/// Some production of rule `r` derives a sequence that starts with token `t`.
pub open spec fn begins_with(g: Cfg, r: int, t: int) -> bool {
    exists|p: int, w: Seq<Symbol>, d: nat|
        g.is_prod_of(p, r) && #[trigger] symbols_derive(g, g.prods[p], w, d) && w.len() > 0 && w[0]
            == Symbol::Token(t as TIdx)
}

/// A derivation stays one when more depth is allowed.
pub proof fn lemma_symbol_derives_mono(g: Cfg, s: Symbol, w: Seq<Symbol>, d: nat, e: nat)
    requires
        symbol_derives(g, s, w, d),
        d <= e,
    ensures
        symbol_derives(g, s, w, e),
    decreases d, 0nat, 0nat,
{
    if w.len() == 1 && w[0] == s {
    } else {
        let p = choose|p: int| #[trigger]
            g.is_prod_of(p, s->Rule_0 as int) && symbols_derive(g, g.prods[p], w, (d - 1) as nat);
        lemma_symbols_derive_mono(g, g.prods[p], w, (d - 1) as nat, (e - 1) as nat);
        assert(g.is_prod_of(p, s->Rule_0 as int));
    }
}

/// A derivation stays one when more depth is allowed.
pub proof fn lemma_symbols_derive_mono(g: Cfg, a: Seq<Symbol>, w: Seq<Symbol>, d: nat, e: nat)
    requires
        symbols_derive(g, a, w, d),
        d <= e,
    ensures
        symbols_derive(g, a, w, e),
    decreases d, 1nat, a.len(),
{
    if a.len() > 0 {
        let k = choose|k: int|
            #![trigger w.take(k)]
            0 <= k <= w.len() && symbol_derives(g, a[0], w.take(k), d) && symbols_derive(
                g,
                a.skip(1),
                w.skip(k),
                d,
            );
        lemma_symbol_derives_mono(g, a[0], w.take(k), d, e);
        lemma_symbols_derive_mono(g, a.skip(1), w.skip(k), d, e);
    }
}

/// Putting a derivation of the first symbol before a derivation of the others.
pub proof fn lemma_derives_cons(g: Cfg, a: Seq<Symbol>, w0: Seq<Symbol>, w1: Seq<Symbol>, d: nat)
    requires
        a.len() > 0,
        symbol_derives(g, a[0], w0, d),
        symbols_derive(g, a.skip(1), w1, d),
    ensures
        symbols_derive(g, a, w0 + w1, d),
{
    let w = w0 + w1;
    let k = w0.len() as int;
    assert(w.take(k) =~= w0);
    assert(w.skip(k) =~= w1);
    assert(symbol_derives(g, a[0], w.take(k), d));
}

/// Every sequence derives itself.
pub proof fn lemma_derives_self(g: Cfg, a: Seq<Symbol>, d: nat)
    ensures
        symbols_derive(g, a, a, d),
    decreases a.len(),
{
    if a.len() > 0 {
        lemma_derives_self(g, a.skip(1), d);
        let w0 = seq![a[0]];
        assert(symbol_derives(g, a[0], w0, d));
        lemma_derives_cons(g, a, w0, a.skip(1), d);
        assert(w0 + a.skip(1) =~= a);
    }
}

/// Derivations of two sequences, one after the other, derive from the two sequences joined.
pub proof fn lemma_derives_concat(
    g: Cfg,
    a: Seq<Symbol>,
    b: Seq<Symbol>,
    wa: Seq<Symbol>,
    wb: Seq<Symbol>,
    d: nat,
)
    requires
        symbols_derive(g, a, wa, d),
        symbols_derive(g, b, wb, d),
    ensures
        symbols_derive(g, a + b, wa + wb, d),
    decreases a.len(),
{
    if a.len() == 0 {
        assert(a + b =~= b);
        assert(wa + wb =~= wb);
    } else {
        let k = choose|k: int|
            #![trigger wa.take(k)]
            0 <= k <= wa.len() && symbol_derives(g, a[0], wa.take(k), d) && symbols_derive(
                g,
                a.skip(1),
                wa.skip(k),
                d,
            );
        lemma_derives_concat(g, a.skip(1), b, wa.skip(k), wb, d);
        assert((a + b).skip(1) =~= a.skip(1) + b);
        assert((a + b)[0] == a[0]);
        lemma_derives_cons(g, a + b, wa.take(k), wa.skip(k) + wb, d);
        assert(wa.take(k) + (wa.skip(k) + wb) =~= wa + wb);
    }
}

/// A derivation from a joined sequence splits into a derivation from each part.
pub proof fn lemma_derives_split(g: Cfg, a: Seq<Symbol>, b: Seq<Symbol>, w: Seq<Symbol>, d: nat) -> (k:
    int)
    requires
        symbols_derive(g, a + b, w, d),
    ensures
        0 <= k <= w.len(),
        symbols_derive(g, a, w.take(k), d),
        symbols_derive(g, b, w.skip(k), d),
    decreases a.len(),
{
    if a.len() == 0 {
        assert(a + b =~= b);
        assert(w.skip(0) =~= w);
        0
    } else {
        let ab = a + b;
        let k0 = choose|k: int|
            #![trigger w.take(k)]
            0 <= k <= w.len() && symbol_derives(g, ab[0], w.take(k), d) && symbols_derive(
                g,
                ab.skip(1),
                w.skip(k),
                d,
            );
        assert(ab.skip(1) =~= a.skip(1) + b);
        let k1 = lemma_derives_split(g, a.skip(1), b, w.skip(k0), d);
        let k = k0 + k1;
        assert(w.take(k).take(k0) =~= w.take(k0));
        assert(w.take(k).skip(k0) =~= w.skip(k0).take(k1));
        assert(w.skip(k0).skip(k1) =~= w.skip(k));
        assert(symbol_derives(g, a[0], w.take(k).take(k0), d));
        k
    }
}

/// What a derivation reaches, a further derivation can start from.
pub proof fn lemma_symbol_derives_trans(
    g: Cfg,
    s: Symbol,
    w: Seq<Symbol>,
    v: Seq<Symbol>,
    d: nat,
    e: nat,
)
    requires
        symbol_derives(g, s, w, d),
        symbols_derive(g, w, v, e),
    ensures
        symbol_derives(g, s, v, d + e),
    decreases d, 0nat, 0nat,
{
    if w.len() == 1 && w[0] == s {
        let k = choose|k: int|
            #![trigger v.take(k)]
            0 <= k <= v.len() && symbol_derives(g, w[0], v.take(k), e) && symbols_derive(
                g,
                w.skip(1),
                v.skip(k),
                e,
            );
        assert(v.skip(k).len() == 0);
        assert(v.take(k) =~= v);
        lemma_symbol_derives_mono(g, s, v, e, d + e);
    } else {
        let p = choose|p: int| #[trigger]
            g.is_prod_of(p, s->Rule_0 as int) && symbols_derive(g, g.prods[p], w, (d - 1) as nat);
        lemma_symbols_derive_trans(g, g.prods[p], w, v, (d - 1) as nat, e);
        assert(g.is_prod_of(p, s->Rule_0 as int));
    }
}

/// What a derivation reaches, a further derivation can start from.
pub proof fn lemma_symbols_derive_trans(
    g: Cfg,
    a: Seq<Symbol>,
    w: Seq<Symbol>,
    v: Seq<Symbol>,
    d: nat,
    e: nat,
)
    requires
        symbols_derive(g, a, w, d),
        symbols_derive(g, w, v, e),
    ensures
        symbols_derive(g, a, v, d + e),
    decreases d, 1nat, a.len(),
{
    if a.len() == 0 {
    } else {
        let k = choose|k: int|
            #![trigger w.take(k)]
            0 <= k <= w.len() && symbol_derives(g, a[0], w.take(k), d) && symbols_derive(
                g,
                a.skip(1),
                w.skip(k),
                d,
            );
        assert(w.take(k) + w.skip(k) =~= w);
        let j = lemma_derives_split(g, w.take(k), w.skip(k), v, e);
        lemma_symbol_derives_trans(g, a[0], w.take(k), v.take(j), d, e);
        lemma_symbols_derive_trans(g, a.skip(1), w.skip(k), v.skip(j), d, e);
        lemma_derives_cons(g, a, v.take(j), v.skip(j), d + e);
        assert(v.take(j) + v.skip(j) =~= v);
    }
}

/// Symbols that each derive the empty string derive it together.
pub proof fn lemma_all_derive_empty(g: Cfg, a: Seq<Symbol>, d: nat)
    requires
        forall|j: int| 0 <= j < a.len() ==> symbol_derives(g, #[trigger] a[j], Seq::<Symbol>::empty(), d),
    ensures
        symbols_derive(g, a, Seq::<Symbol>::empty(), d),
    decreases a.len(),
{
    if a.len() > 0 {
        let e = Seq::<Symbol>::empty();
        assert forall|j: int| 0 <= j < a.skip(1).len() implies symbol_derives(
            g,
            #[trigger] a.skip(1)[j],
            e,
            d,
        ) by {
            assert(a.skip(1)[j] == a[j + 1]);
        }
        lemma_all_derive_empty(g, a.skip(1), d);
        assert(symbol_derives(g, a[0], e, d));
        lemma_derives_cons(g, a, e, e, d);
        assert(e + e =~= e);
    }
}

/// Symbols that together derive the empty string each derive it.
pub proof fn lemma_each_derives_empty(g: Cfg, a: Seq<Symbol>, d: nat)
    requires
        symbols_derive(g, a, Seq::<Symbol>::empty(), d),
    ensures
        forall|j: int| 0 <= j < a.len() ==> symbol_derives(g, #[trigger] a[j], Seq::<Symbol>::empty(), d),
    decreases a.len(),
{
    if a.len() > 0 {
        let e = Seq::<Symbol>::empty();
        let k = choose|k: int|
            #![trigger e.take(k)]
            0 <= k <= e.len() && symbol_derives(g, a[0], e.take(k), d) && symbols_derive(
                g,
                a.skip(1),
                e.skip(k),
                d,
            );
        assert(e.take(k) =~= e);
        assert(e.skip(k) =~= e);
        lemma_each_derives_empty(g, a.skip(1), d);
        assert forall|j: int| 0 <= j < a.len() implies symbol_derives(g, #[trigger] a[j], e, d) by {
            if j > 0 {
                assert(a.skip(1)[j - 1] == a[j]);
            }
        }
    }
}

/// A rule that the analysis finds to derive the empty string derives it.
pub proof fn lemma_nullable_derives(g: Cfg, r: int, n: nat)
    requires
        0 <= r <= u32::MAX,
        nullable_within(g, r, n),
    ensures
        symbol_derives(g, Symbol::Rule(r as RIdx), Seq::<Symbol>::empty(), n),
    decreases n,
{
    let p = choose|p: int| #[trigger]
        g.is_prod_of(p, r) && all_nullable_within(g, g.prods[p], (n - 1) as nat);
    let a = g.prods[p];
    assert forall|j: int| 0 <= j < a.len() implies symbol_derives(
        g,
        #[trigger] a[j],
        Seq::<Symbol>::empty(),
        (n - 1) as nat,
    ) by {
        match a[j] {
            Symbol::Rule(q) => {
                lemma_nullable_derives(g, q as int, (n - 1) as nat);
            },
            Symbol::Token(_) => {},
        }
    }
    lemma_all_derive_empty(g, a, (n - 1) as nat);
    assert(g.is_prod_of(p, Symbol::Rule(r as RIdx)->Rule_0 as int));
}

/// A rule that derives the empty string is found to do so by the analysis.
pub proof fn lemma_derives_nullable(g: Cfg, r: int, d: nat)
    requires
        0 <= r <= u32::MAX,
        symbol_derives(g, Symbol::Rule(r as RIdx), Seq::<Symbol>::empty(), d),
    ensures
        nullable_within(g, r, d),
    decreases d,
{
    let s = Symbol::Rule(r as RIdx);
    let p = choose|p: int| #[trigger]
        g.is_prod_of(p, s->Rule_0 as int) && symbols_derive(
            g,
            g.prods[p],
            Seq::<Symbol>::empty(),
            (d - 1) as nat,
        );
    let a = g.prods[p];
    lemma_each_derives_empty(g, a, (d - 1) as nat);
    assert forall|j: int| 0 <= j < a.len() implies match #[trigger] a[j] {
        Symbol::Rule(q) => nullable_within(g, q as int, (d - 1) as nat),
        Symbol::Token(_) => false,
    } by {
        assert(symbol_derives(g, a[j], Seq::<Symbol>::empty(), (d - 1) as nat));
        match a[j] {
            Symbol::Rule(q) => {
                lemma_derives_nullable(g, q as int, (d - 1) as nat);
            },
            Symbol::Token(_) => {},
        }
    }
    assert(g.is_prod_of(p, r));
}

/// A rule's epsilon bit says whether the rule derives the empty string.
pub proof fn lemma_nullable_iff_derives_empty(g: Cfg, r: int)
    requires
        0 <= r <= u32::MAX,
    ensures
        nullable(g, r) <==> derives_empty(g, r),
{
    if nullable(g, r) {
        let n = choose|n: nat| nullable_within(g, r, n);
        lemma_nullable_derives(g, r, n);
    }
    if derives_empty(g, r) {
        let s = Symbol::Rule(r as RIdx);
        let d = choose|d: nat| symbol_derives(g, s, Seq::<Symbol>::empty(), d);
        lemma_derives_nullable(g, r, d);
    }
}

/// Rules that derive the empty string derive it together, within some depth.
pub proof fn lemma_all_nullable_derive_empty(g: Cfg, a: Seq<Symbol>) -> (d: nat)
    requires
        all_nullable(g, a),
    ensures
        symbols_derive(g, a, Seq::<Symbol>::empty(), d),
{
    let d = lemma_all_nullable_bounded(g, a);
    assert forall|j: int| 0 <= j < a.len() implies symbol_derives(
        g,
        #[trigger] a[j],
        Seq::<Symbol>::empty(),
        d,
    ) by {
        match a[j] {
            Symbol::Rule(q) => {
                lemma_nullable_derives(g, q as int, d);
            },
            Symbol::Token(_) => {},
        }
    }
    lemma_all_derive_empty(g, a, d);
    d
}

/// Symbols that together derive the empty string are rules that derive it.
pub proof fn lemma_derive_empty_all_nullable(g: Cfg, a: Seq<Symbol>, d: nat)
    requires
        symbols_derive(g, a, Seq::<Symbol>::empty(), d),
    ensures
        all_nullable(g, a),
{
    lemma_each_derives_empty(g, a, d);
    assert forall|j: int| 0 <= j < a.len() implies match #[trigger] a[j] {
        Symbol::Rule(q) => nullable(g, q as int),
        Symbol::Token(_) => false,
    } by {
        assert(symbol_derives(g, a[j], Seq::<Symbol>::empty(), d));
        match a[j] {
            Symbol::Rule(q) => {
                lemma_derives_nullable(g, q as int, d);
            },
            Symbol::Token(_) => {},
        }
    }
}

/// Where the symbols before position `i` derive the empty string and the symbol at `i`
/// derives `wi`, the sequence derives `wi` followed by the symbols behind `i`.
pub proof fn lemma_derive_through(g: Cfg, a: Seq<Symbol>, i: int, wi: Seq<Symbol>, d: nat)
    requires
        0 <= i < a.len(),
        symbols_derive(g, a.take(i), Seq::<Symbol>::empty(), d),
        symbol_derives(g, a[i], wi, d),
    ensures
        symbols_derive(g, a, wi + a.skip(i + 1), d),
{
    let e = Seq::<Symbol>::empty();
    let rest = a.skip(i + 1);
    lemma_derives_self(g, rest, d);
    let tail = a.skip(i);
    assert(tail[0] == a[i]);
    assert(tail.skip(1) =~= rest);
    lemma_derives_cons(g, tail, wi, rest, d);
    lemma_derives_concat(g, a.take(i), tail, e, wi + rest, d);
    assert(a.take(i) + tail =~= a);
    assert(e + (wi + rest) =~= wi + rest);
}

/// A token that the analysis puts in a FIRST set begins a sequence that a production of the
/// rule derives.
pub proof fn lemma_first_begins(g: Cfg, r: int, t: int, n: nat)
    requires
        g.wf(),
        first_within(g, r, t, n),
    ensures
        begins_with(g, r, t),
    decreases n,
{
    let (p, i) = choose|p: int, i: int|
        #![trigger g.prods[p][i]]
        g.is_prod_of(p, r) && 0 <= i < g.prods[p].len() && all_nullable(g, g.prods[p].take(i))
            && match g.prods[p][i] {
            Symbol::Token(t2) => t2 == t,
            Symbol::Rule(q) => first_within(g, q as int, t, (n - 1) as nat),
        };
    let a = g.prods[p];
    let d0 = lemma_all_nullable_derive_empty(g, a.take(i));
    assert(g.symbol_ok(g.prods[p][i]));
    match a[i] {
        Symbol::Token(t2) => {
            let wi = seq![a[i]];
            assert(symbol_derives(g, a[i], wi, d0));
            lemma_derive_through(g, a, i, wi, d0);
            let w = wi + a.skip(i + 1);
            assert(w[0] == Symbol::Token(t as TIdx));
            assert(g.is_prod_of(p, r) && symbols_derive(g, g.prods[p], w, d0) && w.len() > 0);
        },
        Symbol::Rule(q) => {
            lemma_first_begins(g, q as int, t, (n - 1) as nat);
            let (pb, w1, d1) = choose|pb: int, w1: Seq<Symbol>, d1: nat|
                g.is_prod_of(pb, q as int) && #[trigger] symbols_derive(g, g.prods[pb], w1, d1) && w1.len() > 0
                    && w1[0] == Symbol::Token(t as TIdx);
            assert(symbol_derives(g, a[i], w1, d1 + 1));
            let d = d0 + d1 + 1;
            lemma_symbol_derives_mono(g, a[i], w1, d1 + 1, d);
            lemma_symbols_derive_mono(g, a.take(i), Seq::<Symbol>::empty(), d0, d);
            lemma_derive_through(g, a, i, w1, d);
            let w = w1 + a.skip(i + 1);
            assert(w[0] == Symbol::Token(t as TIdx));
            assert(g.is_prod_of(p, r) && symbols_derive(g, g.prods[p], w, d) && w.len() > 0);
        },
    }
}

/// Where a sequence of symbols derives a sequence that starts with token `t`, behind a prefix
/// of rules that derive the empty string stands a symbol that `t` can begin.
pub proof fn lemma_begins_position(g: Cfg, a: Seq<Symbol>, w: Seq<Symbol>, d: nat, t: int) -> (i: int)
    requires
        g.wf(),
        0 <= t <= u32::MAX,
        forall|j: int| 0 <= j < a.len() ==> g.symbol_ok(#[trigger] a[j]),
        symbols_derive(g, a, w, d),
        w.len() > 0,
        w[0] == Symbol::Token(t as TIdx),
    ensures
        0 <= i < a.len(),
        all_nullable(g, a.take(i)),
        symbol_first(g, a[i], t),
    decreases d, a.len(),
{
    let k = choose|k: int|
        #![trigger w.take(k)]
        0 <= k <= w.len() && symbol_derives(g, a[0], w.take(k), d) && symbols_derive(
            g,
            a.skip(1),
            w.skip(k),
            d,
        );
    if k == 0 {
        assert(w.take(0) =~= Seq::<Symbol>::empty());
        assert(w.skip(0) =~= w);
        let q = a[0]->Rule_0;
        assert(g.symbol_ok(a[0]));
        lemma_derives_nullable(g, q as int, d);
        assert forall|j: int| 0 <= j < a.skip(1).len() implies g.symbol_ok(#[trigger] a.skip(1)[j]) by {
            assert(a.skip(1)[j] == a[j + 1]);
        }
        let i1 = lemma_begins_position(g, a.skip(1), w, d, t);
        let i = i1 + 1;
        assert(a.skip(1)[i1] == a[i]);
        assert forall|j: int| 0 <= j < a.take(i).len() implies match #[trigger] a.take(i)[j] {
            Symbol::Rule(q2) => nullable(g, q2 as int),
            Symbol::Token(_) => false,
        } by {
            if j > 0 {
                assert(a.skip(1).take(i1)[j - 1] == a.take(i)[j]);
            }
        }
        i
    } else {
        let w0 = w.take(k);
        assert(w0[0] == w[0]);
        if w0.len() == 1 && w0[0] == a[0] {
        } else {
            let q = a[0]->Rule_0;
            let p = choose|p: int| #[trigger]
                g.is_prod_of(p, q as int) && symbols_derive(g, g.prods[p], w0, (d - 1) as nat);
            assert forall|j: int| 0 <= j < g.prods[p].len() implies g.symbol_ok(#[trigger] g.prods[p][j]) by {}
            let i1 = lemma_begins_position(g, g.prods[p], w0, (d - 1) as nat, t);
            lemma_first_step(g, p, i1, t);
        }
        assert(a.take(0) =~= Seq::<Symbol>::empty());
        0
    }
}

/// A token is in the FIRST set of a rule exactly if some production of the rule derives a
/// sequence that starts with the token.
pub proof fn lemma_first_iff_begins(g: Cfg, r: int, t: int)
    requires
        g.wf(),
        0 <= t <= u32::MAX,
    ensures
        in_first(g, r, t) <==> begins_with(g, r, t),
{
    if in_first(g, r, t) {
        let n = choose|n: nat| first_within(g, r, t, n);
        lemma_first_begins(g, r, t, n);
    }
    if begins_with(g, r, t) {
        let (p, w, d) = choose|p: int, w: Seq<Symbol>, d: nat|
            g.is_prod_of(p, r) && #[trigger] symbols_derive(g, g.prods[p], w, d) && w.len() > 0 && w[0]
                == Symbol::Token(t as TIdx);
        assert forall|j: int| 0 <= j < g.prods[p].len() implies g.symbol_ok(#[trigger] g.prods[p][j]) by {}
        let i = lemma_begins_position(g, g.prods[p], w, d, t);
        lemma_first_step(g, p, i, t);
    }
}

} // verus!
