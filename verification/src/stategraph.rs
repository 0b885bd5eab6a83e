//! The LR(1) automaton of a grammar, and the state table that it gives.
//!
//! A state is a set of items. An item is a production with a dot in it, and a set of
//! lookahead tokens. The sets are kept as tables of bits: one row of lookaheads for each
//! place of the dot in each production; an item belongs to a state if its row holds a bit.

use crate::bitrows::{
    has_shape, lemma_grow_row, lemma_rows_unset_within, row_within, rows_bits, rows_unset, rows_within,
};
use crate::bits::{vob_bits, vob_eq, vob_from_elem, vob_get, vob_or, vob_set};
use crate::firsts::{all_nullable, in_first, nullable, symbol_first, YaccFirsts};
use crate::grammar::{Cfg, PIdx, RIdx, Symbol, TIdx, YaccGrammar};
use crate::reach::{
    among, distinct, follow_on, lemma_not_too_many, lemma_rows_grow, lemma_same_bits, lemma_too_many,
    moves, row_among, row_of, rows_before, rows_total, rows_used, too_many_states,
};
use crate::statetable::{Action, StIdx, StateTable};
use vob::Vob;
use vstd::prelude::*;

verus! {

/// How many states an automaton may have at most.
pub const MAX_STATES: usize = 0xffff_fff0;

/// Where the rows of each production stand in a state: `starts[p] + d` is the row of
/// production `p` with the dot before its symbol `d`, or behind its last symbol.
pub open spec fn starts_ok(g: Cfg, starts: Seq<usize>, count: int) -> bool {
    &&& starts.len() == g.prods.len()
    &&& forall|p: int| 0 <= p < g.prods.len() ==> (#[trigger] starts[p]) + g.prods[p].len() < count
    &&& forall|p: int, q: int|
        0 <= p < q < g.prods.len() ==> (#[trigger] starts[p]) + g.prods[p].len() < #[trigger] starts[q]
}

/// An item: the production `p` with the dot before its symbol `d`, or behind its last
/// symbol, and the lookahead token `t`.
pub struct Item {
    pub p: int,
    pub d: int,
    pub t: int,
}

/// The item is one of the grammar.
pub open spec fn item_ok(g: Cfg, it: Item) -> bool {
    0 <= it.p < g.prods.len() && 0 <= it.d <= g.prods[it.p].len() && 0 <= it.t < g.tokens_len
}

/// The items that a state holds.
pub open spec fn items_of(g: Cfg, starts: Seq<usize>, rows: Seq<Vob<usize>>) -> Set<Item> {
    items_bits(g, starts, rows_bits(rows))
}

/// Token `b` can begin what stands behind symbol `d` of production `p`: behind the symbol,
/// after rules that derive the empty string, stands `b`, or a rule that `b` can begin.
pub open spec fn begins_rest(g: Cfg, p: int, d: int, b: int) -> bool {
    exists|i: int|
        d < i < g.prods[p].len() && all_nullable(g, g.prods[p].subrange(d + 1, i)) && #[trigger] symbol_first(
            g,
            g.prods[p][i],
            b,
        )
}

/// Only rules that derive the empty string stand behind symbol `d` of production `p`.
pub open spec fn rest_nullable(g: Cfg, p: int, d: int) -> bool {
    all_nullable(g, g.prods[p].skip(d + 1))
}

/// Token `b` can stand behind the rule at place `d` of production `p`, where token `a` can
/// stand behind the production: `b` can begin what stands behind the rule, or nothing has to
/// stand there, and `b` is `a`.
pub open spec fn follows_dot(g: Cfg, p: int, d: int, a: int, b: int) -> bool {
    begins_rest(g, p, d, b) || (rest_nullable(g, p, d) && b == a)
}

/// A state of the automaton of `g` has a row of lookaheads for each place of the dot.
pub open spec fn state_ok(g: Cfg, rows: Seq<Vob<usize>>, count: int) -> bool {
    has_shape(rows_bits(rows), count as nat, g.tokens_len)
}

/// The place of the rows of each production, and the number of rows of a state: the rows
/// of a production stand behind those of the productions before it. `None` if the rows are
/// more than can be counted.
fn index_items(grm: &YaccGrammar) -> (res: Option<(Vec<usize>, usize)>)
    ensures
        res is Some <==> rows_total(grm@) <= usize::MAX,
        res matches Some((starts, count)) ==> {
            &&& count == rows_total(grm@)
            &&& starts@.len() == grm@.prods.len()
            &&& forall|p: int| 0 <= p < starts@.len() ==> #[trigger] starts@[p] == rows_before(grm@, p)
            &&& starts_ok(grm@, starts@, count as int)
            &&& rows_used(grm@, starts@, count as int)
        },
{
    let n = grm.prods_len();
    let ghost g = grm@;
    let mut starts: Vec<usize> = Vec::new();
    let mut count: usize = 0;
    let mut p: PIdx = 0;
    while p < n
        invariant
            g == grm@,
            p <= n,
            n == g.prods.len(),
            starts@.len() == p,
            count == rows_before(g, p as int),
            forall|q: int| 0 <= q < p ==> #[trigger] starts@[q] == rows_before(g, q),
            forall|q: int| 0 <= q < p ==> (#[trigger] starts@[q]) + g.prods[q].len() < count,
            forall|q: int, r: int|
                0 <= q < r < p ==> (#[trigger] starts@[q]) + g.prods[q].len() < #[trigger] starts@[r],
            forall|r: int| 0 <= r < count ==> #[trigger] row_among(g, starts@, p as int, r),
        decreases n - p,
    {
        let len = grm.prod(p).len();
        let ghost before = starts@;
        starts.push(count);
        if len >= usize::MAX - count {
            proof {
                lemma_rows_grow(g, p + 1, n as int);
            }
            return None;
        }
        proof {
            assert forall|r: int| 0 <= r < count + len + 1 implies #[trigger] row_among(g, starts@, p + 1, r) by {
                if r < count {
                    assert(row_among(g, before, p as int, r));
                    let (q, d) = choose|q: int, d: int|
                        0 <= q < p as int && 0 <= d <= g.prods[q].len() && #[trigger] row_of(before, q, d) == r;
                    assert(starts@[q] == before[q]);
                    assert(row_of(starts@, q, d) == r);
                } else {
                    assert(row_of(starts@, p as int, r - count) == r);
                }
            }
        }
        count = count + len + 1;
        p += 1;
    }
    Some((starts, count))
}

/// A state without items.
fn empty_state(count: usize, width: usize) -> (rows: Vec<Vob<usize>>)
    ensures
        has_shape(rows_bits(rows@), count as nat, width as nat),
        forall|r: int, t: int| 0 <= r < count && 0 <= t < width ==> !#[trigger] rows_bits(rows@)[r][t],
{
    let mut rows: Vec<Vob<usize>> = Vec::new();
    while rows.len() < count
        invariant
            rows@.len() <= count,
            forall|r: int| 0 <= r < rows@.len() ==> (#[trigger] vob_bits(rows@[r])).len() == width,
            forall|r: int, t: int| 0 <= r < rows@.len() && 0 <= t < width ==> !#[trigger] vob_bits(rows@[r])[t],
        decreases count - rows@.len(),
    {
        rows.push(vob_from_elem(false, width));
    }
    rows
}

/// Whether a row holds a bit.
fn row_nonempty(row: &Vob<usize>, width: usize) -> (b: bool)
    requires
        vob_bits(*row).len() == width,
    ensures
        b == exists|t: int| 0 <= t < width && #[trigger] vob_bits(*row)[t],
{
    let mut t: usize = 0;
    while t < width
        invariant
            t <= width,
            vob_bits(*row).len() == width,
            forall|u: int| 0 <= u < t ==> !#[trigger] vob_bits(*row)[u],
        decreases width - t,
    {
        if vob_get(row, t) {
            return true;
        }
        t += 1;
    }
    false
}

/// The tokens that can begin what stands behind symbol `d` of production `p`, with the
/// lookaheads `la` where only rules that derive the empty string stand there.
fn first_of_rest(grm: &YaccGrammar, firsts: &YaccFirsts, p: PIdx, d: usize, la: &Vob<usize>) -> (fb: Vob<
    usize,
>)
    requires
        firsts.grammar() == grm@,
        p < grm@.prods.len(),
        d < grm@.prods[p as int].len(),
        vob_bits(*la).len() == grm@.tokens_len,
    ensures
        vob_bits(fb).len() == grm@.tokens_len,
        forall|b: int|
            0 <= b < grm@.tokens_len ==> (#[trigger] vob_bits(fb)[b] <==> begins_rest(grm@, p as int, d as int, b)
                || (rest_nullable(grm@, p as int, d as int) && vob_bits(*la)[b])),
{
    let width = grm.tokens_len() as usize;
    let body = grm.prod(p);
    let ghost g = grm@;
    let ghost a = g.prods[p as int];
    let mut fb = vob_from_elem(false, width);
    let len = body.len();
    let mut i = d + 1;
    let mut walking = true;
    proof {
        assert(a.subrange(d + 1, d + 1) =~= Seq::<Symbol>::empty());
    }
    while walking && i < body.len()
        invariant
            g == grm@,
            g.wf(),
            firsts.grammar() == g,
            width == g.tokens_len,
            p < g.prods.len(),
            a == g.prods[p as int],
            body@ == a,
            forall|j: int| 0 <= j < a.len() ==> g.symbol_ok(#[trigger] a[j]),
            d < i <= a.len(),
            !walking ==> i < a.len(),
            vob_bits(fb).len() == width,
            all_nullable(g, a.subrange(d + 1, i as int)),
            !walking ==> !all_nullable(g, a.subrange(d + 1, i + 1)),
            forall|b: int|
                0 <= b < width ==> (#[trigger] vob_bits(fb)[b] <==> exists|j: int|
                    d < j < (if walking {
                        i as int
                    } else {
                        i + 1
                    }) && all_nullable(g, a.subrange(d + 1, j)) && #[trigger] symbol_first(g, a[j], b)),
        decreases
                (if walking {
                    1int
                } else {
                    0int
                }),
                a.len() - i,
    {
        let ghost before = vob_bits(fb);
        let ghost here = i as int;
        assert(g.symbol_ok(a[here]));
        proof {
            lemma_nullable_prefixes(g, a, d + 1, here);
        }
        match body[i] {
            Symbol::Token(t) => {
                vob_set(&mut fb, t as usize, true);
                walking = false;
                proof {
                    assert(!all_nullable(g, a.subrange(d + 1, here + 1))) by {
                        assert(a.subrange(d + 1, here + 1)[here - d - 1] == a[here]);
                    }
                    assert forall|b: int| 0 <= b < width implies (#[trigger] vob_bits(fb)[b] <==> exists|j: int|
                        d < j < here + 1 && all_nullable(g, a.subrange(d + 1, j)) && #[trigger] symbol_first(
                            g,
                            a[j],
                            b,
                        )) by {
                        if vob_bits(fb)[b] && !before[b] {
                            assert(symbol_first(g, a[here], b));
                        }
                        if before[b] {
                            let j = choose|j: int|
                                d < j < here && all_nullable(g, a.subrange(d + 1, j)) && #[trigger] symbol_first(
                                    g,
                                    a[j],
                                    b,
                                );
                            assert(symbol_first(g, a[j], b));
                        }
                    }
                }
            },
            Symbol::Rule(q) => {
                let f = firsts.firsts(q);
                assert(firsts@.sets[q as int].len() == width);
                vob_or(&mut fb, f);
                let eps = firsts.is_epsilon_set(q);
                proof {
                    assert forall|b: int| 0 <= b < width implies (#[trigger] vob_bits(fb)[b] <==> exists|j: int|
                        d < j < here + 1 && all_nullable(g, a.subrange(d + 1, j)) && #[trigger] symbol_first(
                            g,
                            a[j],
                            b,
                        )) by {
                        assert(firsts@.sets[q as int][b] <==> in_first(g, q as int, b));
                        if vob_bits(fb)[b] && !before[b] {
                            assert(symbol_first(g, a[here], b));
                        }
                        if before[b] {
                            let j = choose|j: int|
                                d < j < here && all_nullable(g, a.subrange(d + 1, j)) && #[trigger] symbol_first(
                                    g,
                                    a[j],
                                    b,
                                );
                            assert(symbol_first(g, a[j], b));
                        }
                    }
                    if eps {
                        assert(all_nullable(g, a.subrange(d + 1, here + 1))) by {
                            assert forall|j: int| 0 <= j < a.subrange(d + 1, here + 1).len() implies match #[trigger] a.subrange(
                                d + 1,
                                here + 1,
                            )[j] {
                                Symbol::Rule(r) => nullable(g, r as int),
                                Symbol::Token(_) => false,
                            } by {
                                if j < here - d - 1 {
                                    assert(a.subrange(d + 1, here)[j] == a.subrange(d + 1, here + 1)[j]);
                                }
                            }
                        }
                    } else {
                        assert(!all_nullable(g, a.subrange(d + 1, here + 1))) by {
                            assert(a.subrange(d + 1, here + 1)[here - d - 1] == a[here]);
                        }
                    }
                }
                if eps {
                    i += 1;
                } else {
                    walking = false;
                }
            },
        }
    }
    let ghost mid = vob_bits(fb);
    if walking {
        vob_or(&mut fb, la);
    }
    proof {
        assert(a.subrange(d + 1, a.len() as int) =~= a.skip(d + 1));
        assert forall|b: int| 0 <= b < width implies (#[trigger] vob_bits(fb)[b] <==> begins_rest(
            g,
            p as int,
            d as int,
            b,
        ) || (rest_nullable(g, p as int, d as int) && vob_bits(*la)[b])) by {
            if !walking {
                // The symbol at which the walk stopped stands in the way of everything behind it.
                assert(!rest_nullable(g, p as int, d as int)) by {
                    if all_nullable(g, a.skip(d + 1)) {
                        lemma_nullable_prefixes(g, a, d + 1, a.len() as int);
                    }
                }
                if begins_rest(g, p as int, d as int, b) {
                    let j = choose|j: int|
                        d < j < a.len() && all_nullable(g, a.subrange(d + 1, j)) && #[trigger] symbol_first(
                            g,
                            a[j],
                            b,
                        );
                    if j > i {
                        lemma_nullable_prefixes(g, a, d + 1, j);
                    }
                }
            }
            if mid[b] {
                let j = choose|j: int|
                    d < j < a.len() && all_nullable(g, a.subrange(d + 1, j)) && #[trigger] symbol_first(g, a[j], b);
                assert(symbol_first(g, a[j], b));
            }
        }
    }
    fb
}

/// Where the symbols from `from` to `to` are rules that derive the empty string, so are
/// those from `from` to every place before `to`.
proof fn lemma_nullable_prefixes(g: Cfg, a: Seq<Symbol>, from: int, to: int)
    requires
        0 <= from <= to <= a.len(),
    ensures
        all_nullable(g, a.subrange(from, to)) ==> forall|j: int|
            from <= j <= to ==> all_nullable(g, #[trigger] a.subrange(from, j)),
{
    if all_nullable(g, a.subrange(from, to)) {
        assert forall|j: int| from <= j <= to implies all_nullable(g, #[trigger] a.subrange(from, j)) by {
            assert forall|k: int| 0 <= k < a.subrange(from, j).len() implies match #[trigger] a.subrange(from, j)[k] {
                Symbol::Rule(r) => nullable(g, r as int),
                Symbol::Token(_) => false,
            } by {
                assert(a.subrange(from, to)[k] == a.subrange(from, j)[k]);
            }
        }
    }
}

/// The items that a table of bits holds.
pub open spec fn items_bits(g: Cfg, starts: Seq<usize>, bits: Seq<Seq<bool>>) -> Set<Item> {
    Set::new(|it: Item| item_ok(g, it) && bits[starts[it.p] + it.d][it.t])
}

/// The item belongs to what `n` steps make of the items `kernel`: it is one of them, or it is
/// the start of a production of the rule before which the dot of an item of fewer steps
/// stands, with a lookahead that can stand behind the rule there.
pub open spec fn closes(g: Cfg, kernel: Set<Item>, it: Item, n: nat) -> bool
    decreases n,
{
    kernel.contains(it) || (n > 0 && it.d == 0 && item_ok(g, it) && exists|pp: int, pd: int, pt: int|
        closes(g, kernel, Item { p: pp, d: pd, t: pt }, (n - 1) as nat) && 0 <= pp < g.prods.len() && 0 <= pd
            < g.prods[pp].len() && g.prods[pp][pd] == Symbol::Rule(g.prod_rules[it.p]) && #[trigger] follows_dot(
            g,
            pp,
            pd,
            pt,
            it.t,
        ))
}

/// The closure of the items `kernel`: the least set of items that holds them and, for each
/// of its items with the dot before a rule, the starts of the rule's productions with the
/// lookaheads that can stand behind the rule there.
pub open spec fn closure(g: Cfg, kernel: Set<Item>) -> Set<Item> {
    Set::new(|it: Item| exists|n: nat| closes(g, kernel, it, n))
}

/// The items hold what the items with the dot at place `pd` of production `pp` call for.
pub open spec fn closed_at(g: Cfg, items: Set<Item>, pp: int, pd: int) -> bool {
    forall|pt: int, q: int, b: int|
        #![trigger follows_dot(g, pp, pd, pt, b), g.prods[q]]
        items.contains(Item { p: pp, d: pd, t: pt }) && g.prods[pp][pd] is Rule && g.is_prod_of(
            q,
            g.prods[pp][pd]->Rule_0 as int,
        ) && follows_dot(g, pp, pd, pt, b) && 0 <= b < g.tokens_len ==> items.contains(Item { p: q, d: 0, t: b })
}

/// The items hold what each of them calls for.
pub open spec fn closed(g: Cfg, items: Set<Item>) -> bool {
    forall|pp: int, pd: int|
        0 <= pp < g.prods.len() && 0 <= pd < g.prods[pp].len() ==> #[trigger] closed_at(g, items, pp, pd)
}

/// A set of items of the closure of `kernel` that holds `kernel`, and what each of its items
/// calls for, is the closure.
pub proof fn lemma_closure(g: Cfg, kernel: Set<Item>, items: Set<Item>)
    requires
        forall|it: Item| kernel.contains(it) ==> items.contains(it),
        forall|it: Item| items.contains(it) ==> closure(g, kernel).contains(it),
        closed(g, items),
    ensures
        items == closure(g, kernel),
{
    assert forall|it: Item| closure(g, kernel).contains(it) implies items.contains(it) by {
        let n = choose|n: nat| closes(g, kernel, it, n);
        lemma_closes_in(g, kernel, items, it, n);
    }
    assert(items =~= closure(g, kernel));
}

/// An item of the closure is in every set that holds the kernel and what its items call for.
proof fn lemma_closes_in(g: Cfg, kernel: Set<Item>, items: Set<Item>, it: Item, n: nat)
    requires
        forall|it: Item| kernel.contains(it) ==> items.contains(it),
        closed(g, items),
        closes(g, kernel, it, n),
    ensures
        items.contains(it),
    decreases n,
{
    if !kernel.contains(it) {
        let (pp, pd, pt) = choose|pp: int, pd: int, pt: int|
            closes(g, kernel, Item { p: pp, d: pd, t: pt }, (n - 1) as nat) && 0 <= pp < g.prods.len() && 0 <= pd
                < g.prods[pp].len() && g.prods[pp][pd] == Symbol::Rule(g.prod_rules[it.p]) && #[trigger] follows_dot(
                g,
                pp,
                pd,
                pt,
                it.t,
            );
        lemma_closes_in(g, kernel, items, Item { p: pp, d: pd, t: pt }, (n - 1) as nat);
        assert(closed_at(g, items, pp, pd));
        assert(g.is_prod_of(it.p, g.prods[pp][pd]->Rule_0 as int));
        let x = g.prods[it.p];
        assert(items.contains(Item { p: it.p, d: 0, t: it.t }));
    }
}

/// Two places of the dot that have the same row are the same place.
proof fn lemma_row_of_item(g: Cfg, starts: Seq<usize>, count: int, p: int, d: int, q: int, e: int)
    requires
        starts_ok(g, starts, count),
        0 <= p < g.prods.len(),
        0 <= d <= g.prods[p].len(),
        0 <= q < g.prods.len(),
        0 <= e <= g.prods[q].len(),
        starts[p] + d == starts[q] + e,
    ensures
        p == q,
        d == e,
{
    if p < q {
        assert(starts[p] + g.prods[p].len() < starts[q]);
    } else if q < p {
        assert(starts[q] + g.prods[q].len() < starts[p]);
    }
}

/// Adds to a state the items that its items with the dot at place `d` of production `p`
/// call for, and says whether the state changed.
fn expand_item(
    grm: &YaccGrammar,
    firsts: &YaccFirsts,
    starts: &Vec<usize>,
    count: usize,
    rows: &mut Vec<Vob<usize>>,
    p: PIdx,
    d: usize,
) -> (changed: bool)
    requires
        firsts.grammar() == grm@,
        starts_ok(grm@, starts@, count as int),
        state_ok(grm@, old(rows)@, count as int),
        p < grm@.prods.len(),
        d < grm@.prods[p as int].len(),
    ensures
        state_ok(grm@, final(rows)@, count as int),
        rows_within(rows_bits(old(rows)@), rows_bits(final(rows)@)),
        changed == (rows_bits(final(rows)@) != rows_bits(old(rows)@)),
        forall|it: Item|
            #![trigger items_of(grm@, starts@, final(rows)@).contains(it)]
            items_of(grm@, starts@, final(rows)@).contains(it) && !items_of(grm@, starts@, old(rows)@).contains(it)
                ==> it.d == 0 && grm@.prods[p as int][d as int] == Symbol::Rule(grm@.prod_rules[it.p])
                && exists|pt: int|
                items_of(grm@, starts@, old(rows)@).contains(Item { p: p as int, d: d as int, t: pt })
                    && #[trigger] follows_dot(grm@, p as int, d as int, pt, it.t),
        !changed ==> closed_at(grm@, items_of(grm@, starts@, old(rows)@), p as int, d as int),
{
    let ghost g = grm@;
    let width = grm.tokens_len() as usize;
    let body = grm.prod(p);
    let base = starts[p as usize];
    let ghost bits0 = rows_bits(rows@);
    let ghost items0 = items_of(g, starts@, rows@);
    assert(starts@[p as int] + g.prods[p as int].len() < count);
    assert(bits0[base + d].len() == width);
    let ghost la = bits0[base + d];
    let b = match body[d] {
        Symbol::Rule(b) => b,
        Symbol::Token(_) => {
            return false;
        },
    };
    assert(g.symbol_ok(body@[d as int]));
    if !row_nonempty(&rows[base + d], width) {
        proof {
            assert forall|pt: int| !items0.contains(Item { p: p as int, d: d as int, t: pt }) by {
                if items0.contains(Item { p: p as int, d: d as int, t: pt }) {
                    assert(la[pt]);
                }
            }
        }
        return false;
    }
    let ghost some = choose|t: int| 0 <= t < width && #[trigger] la[t];
    let fb = first_of_rest(grm, firsts, p, d, &rows[base + d]);
    let qs = grm.rule_to_prods(b);
    let mut changed = false;
    let mut k: usize = 0;
    while k < qs.len()
        invariant
            g == grm@,
            g.wf(),
            width == g.tokens_len,
            k <= qs@.len(),
            forall|j: int| 0 <= j < qs@.len() ==> g.is_prod_of(#[trigger] qs@[j] as int, b as int),
            vob_bits(fb).len() == width,
            starts_ok(g, starts@, count as int),
            state_ok(g, rows@, count as int),
            bits0 == rows_bits(old(rows)@),
            rows_within(bits0, rows_bits(rows@)),
            changed == (rows_bits(rows@) != bits0),
            forall|r: int, t: int|
                0 <= r < count && 0 <= t < width && (#[trigger] rows_bits(rows@)[r][t]) && !bits0[r][t] ==> vob_bits(
                    fb,
                )[t] && exists|j: int| 0 <= j < k && r == #[trigger] starts@[qs@[j] as int],
            forall|j: int, t: int|
                0 <= j < k && 0 <= t < width && vob_bits(fb)[t] ==> #[trigger] rows_bits(
                    rows@,
                )[starts@[qs@[j] as int] as int][t],
        decreases qs@.len() - k,
    {
        let q = qs[k];
        assert(g.is_prod_of(qs@[k as int] as int, b as int));
        let at = starts[q as usize];
        assert(starts@[q as int] + g.prods[q as int].len() < count);
        let ghost before = rows@;
        let ghost bbits = rows_bits(before);
        assert(bbits[at as int].len() == width);
        let ch = vob_or(&mut rows[at], &fb);
        if ch {
            changed = true;
        }
        proof {
            let cur = rows_bits(rows@);
            assert forall|r: int| 0 <= r < bbits.len() && r != at implies #[trigger] cur[r] == bbits[r] by {
                assert(rows@[r] == before[r]);
            }
            assert(row_within(bbits[at as int], cur[at as int]));
            lemma_grow_row(bbits, cur, at as int);
            assert(state_ok(g, rows@, count as int)) by {
                assert forall|r: int| 0 <= r < count implies (#[trigger] cur[r]).len() == width by {
                    if r != at {
                        assert(bbits[r].len() == width);
                    }
                }
            }
            lemma_rows_within_trans(bits0, bbits, cur);
            assert(changed == (cur != bits0)) by {
                if ch {
                    if bbits != bits0 {
                        lemma_rows_differ(bits0, bbits, cur);
                    }
                } else if bbits != bits0 {
                    assert(cur == bbits);
                }
            }
            assert forall|r: int, t: int|
                0 <= r < count && 0 <= t < width && (#[trigger] cur[r][t]) && !bits0[r][t] implies vob_bits(fb)[t]
                && exists|j: int| 0 <= j < k + 1 && r == #[trigger] starts@[qs@[j] as int] by {
                if r != at {
                    assert(cur[r] == bbits[r]);
                    assert(bbits[r][t]);
                    let j = choose|j: int| 0 <= j < k && r == #[trigger] starts@[qs@[j] as int];
                    assert(r == starts@[qs@[j] as int]);
                } else if bbits[r][t] {
                    let j = choose|j: int| 0 <= j < k && r == #[trigger] starts@[qs@[j] as int];
                    assert(r == starts@[qs@[j] as int]);
                } else {
                    assert(r == starts@[qs@[k as int] as int]);
                }
            }
            assert forall|j: int, t: int|
                0 <= j < k + 1 && 0 <= t < width && vob_bits(fb)[t] implies #[trigger] cur[starts@[qs@[j] as int] as int][t] by {
                let r = starts@[qs@[j] as int] as int;
                assert(g.is_prod_of(qs@[j] as int, b as int));
                assert(starts@[qs@[j] as int] + g.prods[qs@[j] as int].len() < count);
                if j < k {
                    assert(bbits[r][t]);
                    assert(row_within(bbits[r], cur[r]));
                }
            }
        }
        k += 1;
    }
    proof {
        let cur = rows_bits(rows@);
        let items = items_of(g, starts@, rows@);
        assert forall|it: Item|
            #![trigger items.contains(it)]
            items.contains(it) && !items0.contains(it) implies it.d == 0 && g.prods[p as int][d as int]
            == Symbol::Rule(g.prod_rules[it.p]) && exists|pt: int|
            items0.contains(Item { p: p as int, d: d as int, t: pt }) && #[trigger] follows_dot(
                g,
                p as int,
                d as int,
                pt,
                it.t,
            ) by {
            let r = starts@[it.p] + it.d;
            assert(starts@[it.p] + g.prods[it.p].len() < count);
            assert(cur[r][it.t] && !bits0[r][it.t]);
            let j = choose|j: int| 0 <= j < qs@.len() && r == #[trigger] starts@[qs@[j] as int];
            let q = qs@[j] as int;
            assert(g.is_prod_of(q, b as int));
            lemma_row_of_item(g, starts@, count as int, it.p, it.d, q, 0);
            assert(vob_bits(fb)[it.t]);
            if begins_rest(g, p as int, d as int, it.t) {
                assert(items0.contains(Item { p: p as int, d: d as int, t: some }));
                assert(follows_dot(g, p as int, d as int, some, it.t));
            } else {
                assert(items0.contains(Item { p: p as int, d: d as int, t: it.t }));
                assert(follows_dot(g, p as int, d as int, it.t, it.t));
            }
        }
        if !changed {
            assert forall|pt: int, q: int, c: int|
                #![trigger follows_dot(g, p as int, d as int, pt, c), g.prods[q]]
                items0.contains(Item { p: p as int, d: d as int, t: pt }) && g.prods[p as int][d as int] is Rule
                    && g.is_prod_of(q, g.prods[p as int][d as int]->Rule_0 as int) && follows_dot(
                    g,
                    p as int,
                    d as int,
                    pt,
                    c,
                ) && 0 <= c < g.tokens_len implies items0.contains(Item { p: q, d: 0, t: c }) by {
                assert(la[pt]);
                assert(vob_bits(fb)[c]);
                assert(qs@.contains(q as PIdx));
                let j = choose|j: int| 0 <= j < qs@.len() && qs@[j] == q as PIdx;
                assert(cur[starts@[qs@[j] as int] as int][c]);
            }
        }
    }
    changed
}

/// Rows that have grown from `a` to `b`, and from `b` to `c`, have grown from `a` to `c`.
proof fn lemma_rows_within_trans(a: Seq<Seq<bool>>, b: Seq<Seq<bool>>, c: Seq<Seq<bool>>)
    requires
        rows_within(a, b),
        rows_within(b, c),
    ensures
        rows_within(a, c),
{
    assert forall|r: int| 0 <= r < a.len() implies row_within(#[trigger] a[r], c[r]) by {
        assert(row_within(a[r], b[r]));
        assert(row_within(b[r], c[r]));
        assert forall|i: int| 0 <= i < a[r].len() && a[r][i] implies #[trigger] c[r][i] by {
            assert(b[r][i]);
        }
    }
}

/// Rows that have grown from `a` to `b`, and from `b` to `c`, and differ from `a` at `b`,
/// differ from `a` at `c`.
proof fn lemma_rows_differ(a: Seq<Seq<bool>>, b: Seq<Seq<bool>>, c: Seq<Seq<bool>>)
    requires
        rows_within(a, b),
        rows_within(b, c),
        a != b,
    ensures
        a != c,
{
    if a == c {
        assert forall|r: int| 0 <= r < a.len() implies #[trigger] a[r] == b[r] by {
            assert(row_within(a[r], b[r]));
            assert(row_within(b[r], c[r]));
            assert forall|i: int| 0 <= i < a[r].len() implies a[r][i] == b[r][i] by {
                if b[r][i] {
                    assert(c[r][i]);
                }
                if a[r][i] {
                    assert(b[r][i]);
                }
            }
            assert(a[r] =~= b[r]);
        }
        assert(a =~= b);
    }
}

/// Adds to a state the items that its items call for, until it holds the closure of the
/// items that it held.
fn close(grm: &YaccGrammar, firsts: &YaccFirsts, starts: &Vec<usize>, count: usize, rows: &mut Vec<Vob<usize>>)
    requires
        firsts.grammar() == grm@,
        starts_ok(grm@, starts@, count as int),
        state_ok(grm@, old(rows)@, count as int),
    ensures
        state_ok(grm@, final(rows)@, count as int),
        rows_within(rows_bits(old(rows)@), rows_bits(final(rows)@)),
        items_of(grm@, starts@, final(rows)@) == closure(grm@, items_of(grm@, starts@, old(rows)@)),
{
    let n = grm.prods_len();
    let ghost g = grm@;
    let ghost kernel = items_of(g, starts@, rows@);
    proof {
        assert forall|it: Item| items_of(g, starts@, rows@).contains(it) implies closure(g, kernel).contains(it) by {
            assert(closes(g, kernel, it, 0));
        }
    }
    loop
        invariant
            g == grm@,
            g.wf(),
            n == g.prods.len(),
            firsts.grammar() == g,
            kernel == items_of(g, starts@, old(rows)@),
            starts_ok(g, starts@, count as int),
            state_ok(g, rows@, count as int),
            rows_within(rows_bits(old(rows)@), rows_bits(rows@)),
            forall|it: Item| items_of(g, starts@, rows@).contains(it) ==> closure(g, kernel).contains(it),
        decreases rows_unset(rows_bits(rows@)),
    {
        let ghost bits0 = rows_bits(rows@);
        let ghost items0 = items_of(g, starts@, rows@);
        let mut changed = false;
        let mut p: PIdx = 0;
        while p < n
            invariant
                g == grm@,
                g.wf(),
                n == g.prods.len(),
                firsts.grammar() == g,
                kernel == items_of(g, starts@, old(rows)@),
                p <= n,
                starts_ok(g, starts@, count as int),
                state_ok(g, rows@, count as int),
                rows_within(rows_bits(old(rows)@), rows_bits(rows@)),
                rows_within(bits0, rows_bits(rows@)),
                forall|it: Item| items_of(g, starts@, rows@).contains(it) ==> closure(g, kernel).contains(it),
                changed == (rows_bits(rows@) != bits0),
                items0 == items_bits(g, starts@, bits0),
                !changed ==> forall|pp: int, pd: int|
                    0 <= pp < p && 0 <= pd < g.prods[pp].len() ==> #[trigger] closed_at(g, items0, pp, pd),
            decreases n - p,
        {
            let len = grm.prod(p).len();
            let mut d: usize = 0;
            while d < len
                invariant
                    g == grm@,
                    g.wf(),
                    n == g.prods.len(),
                    firsts.grammar() == g,
                    kernel == items_of(g, starts@, old(rows)@),
                    p < n,
                    d <= len,
                    len == g.prods[p as int].len(),
                    starts_ok(g, starts@, count as int),
                    state_ok(g, rows@, count as int),
                    rows_within(rows_bits(old(rows)@), rows_bits(rows@)),
                    rows_within(bits0, rows_bits(rows@)),
                    forall|it: Item| items_of(g, starts@, rows@).contains(it) ==> closure(g, kernel).contains(it),
                    changed == (rows_bits(rows@) != bits0),
                    items0 == items_bits(g, starts@, bits0),
                    !changed ==> forall|pp: int, pd: int|
                        0 <= pp < p && 0 <= pd < g.prods[pp].len() ==> #[trigger] closed_at(g, items0, pp, pd),
                    !changed ==> forall|pd: int| 0 <= pd < d ==> #[trigger] closed_at(g, items0, p as int, pd),
                decreases len - d,
            {
                let ghost before = rows@;
                let ghost bbits = rows_bits(before);
                let ghost bitems = items_of(g, starts@, before);
                let ch = expand_item(grm, firsts, starts, count, rows, p, d);
                if ch {
                    changed = true;
                }
                proof {
                    let cur = rows_bits(rows@);
                    lemma_rows_within_trans(bits0, bbits, cur);
                    lemma_rows_within_trans(rows_bits(old(rows)@), bbits, cur);
                    assert(changed == (cur != bits0)) by {
                        if bbits != bits0 {
                            lemma_rows_differ(bits0, bbits, cur);
                        }
                    }
                    assert forall|it: Item| items_of(g, starts@, rows@).contains(it) implies closure(
                        g,
                        kernel,
                    ).contains(it) by {
                        if !bitems.contains(it) {
                            let pt = choose|pt: int|
                                bitems.contains(Item { p: p as int, d: d as int, t: pt }) && #[trigger] follows_dot(
                                    g,
                                    p as int,
                                    d as int,
                                    pt,
                                    it.t,
                                );
                            let parent = Item { p: p as int, d: d as int, t: pt };
                            assert(closure(g, kernel).contains(parent));
                            let m = choose|m: nat| closes(g, kernel, parent, m);
                            assert(closes(g, kernel, it, m + 1));
                        }
                    }
                    if !changed {
                        assert(bitems =~= items0);
                    }
                }
                d += 1;
            }
            p += 1;
        }
        if !changed {
            proof {
                assert(items_of(g, starts@, rows@) =~= items0);
                assert(closed(g, items0));
                assert forall|it: Item| kernel.contains(it) implies items0.contains(it) by {
                    let first = rows_bits(old(rows)@);
                    let r = starts@[it.p] + it.d;
                    assert(starts@[it.p] + g.prods[it.p].len() < count);
                    assert(row_within(first[r], bits0[r]));
                }
                lemma_closure(g, kernel, items0);
            }
            return ;
        }
        proof {
            lemma_rows_unset_within(bits0, rows_bits(rows@));
        }
    }
}

/// The items with the dot behind the symbol `sym` whose like with the dot before it is among
/// `items`.
pub open spec fn advanced(g: Cfg, items: Set<Item>, sym: Symbol) -> Set<Item> {
    Set::new(
        |it: Item|
            item_ok(g, it) && it.d > 0 && g.prods[it.p][it.d - 1] == sym && items.contains(
                Item { p: it.p, d: it.d - 1, t: it.t },
            ),
    )
}

/// The items of a state with the dot moved over the symbol `sym`, where it stood before
/// it; and whether there is any such item.
fn advance(grm: &YaccGrammar, starts: &Vec<usize>, count: usize, rows: &Vec<Vob<usize>>, sym: Symbol) -> (res: (
    Vec<Vob<usize>>,
    bool,
))
    requires
        starts_ok(grm@, starts@, count as int),
        state_ok(grm@, rows@, count as int),
    ensures
        state_ok(grm@, res.0@, count as int),
        items_of(grm@, starts@, res.0@) == advanced(grm@, items_of(grm@, starts@, rows@), sym),
        res.1 == exists|it: Item| advanced(grm@, items_of(grm@, starts@, rows@), sym).contains(it),
{
    let n = grm.prods_len();
    let width = grm.tokens_len() as usize;
    let ghost g = grm@;
    let ghost from = rows_bits(rows@);
    let mut next = empty_state(count, width);
    let mut any = false;
    let mut p: PIdx = 0;
    while p < n
        invariant
            g == grm@,
            n == g.prods.len(),
            width == g.tokens_len,
            p <= n,
            from == rows_bits(rows@),
            starts_ok(g, starts@, count as int),
            state_ok(g, rows@, count as int),
            state_ok(g, next@, count as int),
            forall|r: int, t: int|
                0 <= r < count && 0 <= t < width && #[trigger] rows_bits(next@)[r][t] ==> exists|pp: int, pd: int|
                    0 <= pp < p && 0 <= pd < g.prods[pp].len() && r == starts@[pp] + pd + 1 && g.prods[pp][pd] == sym
                        && #[trigger] from[starts@[pp] + pd][t],
            forall|pp: int, pd: int, t: int|
                0 <= pp < p && 0 <= pd < g.prods[pp].len() && 0 <= t < width && g.prods[pp][pd] == sym
                    && #[trigger] from[starts@[pp] + pd][t] ==> rows_bits(next@)[starts@[pp] + pd + 1][t],
            any == exists|pp: int, pd: int, t: int|
                0 <= pp < p && 0 <= pd < g.prods[pp].len() && 0 <= t < width && g.prods[pp][pd] == sym
                    && #[trigger] from[starts@[pp] + pd][t],
        decreases n - p,
    {
        let body = grm.prod(p);
        let base = starts[p as usize];
        let mut d: usize = 0;
        while d < body.len()
            invariant
                g == grm@,
                n == g.prods.len(),
                width == g.tokens_len,
                p < n,
                d <= body@.len(),
                body@ == g.prods[p as int],
                base == starts@[p as int],
                from == rows_bits(rows@),
                starts_ok(g, starts@, count as int),
                state_ok(g, rows@, count as int),
                state_ok(g, next@, count as int),
                forall|r: int, t: int|
                    0 <= r < count && 0 <= t < width && #[trigger] rows_bits(next@)[r][t] ==> exists|
                        pp: int,
                        pd: int,
                    |
                        0 <= pp <= p && 0 <= pd < g.prods[pp].len() && (pp < p || pd < d) && r == starts@[pp] + pd
                            + 1 && g.prods[pp][pd] == sym && #[trigger] from[starts@[pp] + pd][t],
                forall|pp: int, pd: int, t: int|
                    0 <= pp <= p && 0 <= pd < g.prods[pp].len() && (pp < p || pd < d) && 0 <= t < width
                        && g.prods[pp][pd] == sym && #[trigger] from[starts@[pp] + pd][t] ==> rows_bits(
                        next@,
                    )[starts@[pp] + pd + 1][t],
                any == exists|pp: int, pd: int, t: int|
                    0 <= pp <= p && 0 <= pd < g.prods[pp].len() && (pp < p || pd < d) && 0 <= t < width
                        && g.prods[pp][pd] == sym && #[trigger] from[starts@[pp] + pd][t],
            decreases body@.len() - d,
        {
            assert(starts@[p as int] + g.prods[p as int].len() < count);
            assert(from[base + d].len() == width);
            assert(rows_bits(next@)[base + d + 1].len() == width);
            let ghost before = next@;
            let ghost bbits = rows_bits(before);
            let ghost any0 = any;
            if body[d] == sym && row_nonempty(&rows[base + d], width) {
                vob_or(&mut next[base + d + 1], &rows[base + d]);
                any = true;
            }
            proof {
                let cur = rows_bits(next@);
                let at = base + d + 1;
                assert forall|r: int| 0 <= r < count && r != at implies #[trigger] cur[r] == bbits[r] by {
                    assert(next@[r] == before[r]);
                }
                assert forall|r: int| 0 <= r < count implies (#[trigger] cur[r]).len() == width by {
                    if r != at {
                        assert(bbits[r].len() == width);
                    }
                }
                assert forall|r: int, t: int| 0 <= r < count && 0 <= t < width && #[trigger] cur[r][t] implies exists|
                    pp: int,
                    pd: int,
                |
                    0 <= pp <= p && 0 <= pd < g.prods[pp].len() && (pp < p || pd < d + 1) && r == starts@[pp] + pd
                        + 1 && g.prods[pp][pd] == sym && #[trigger] from[starts@[pp] + pd][t] by {
                    if r != at || bbits[r][t] {
                        assert(bbits[r][t]);
                        let (pp, pd) = choose|pp: int, pd: int|
                            0 <= pp <= p && 0 <= pd < g.prods[pp].len() && (pp < p || pd < d) && r == starts@[pp] + pd
                                + 1 && g.prods[pp][pd] == sym && #[trigger] from[starts@[pp] + pd][t];
                        assert(from[starts@[pp] + pd][t]);
                    } else {
                        assert(from[starts@[p as int] + d][t]);
                    }
                }
                assert forall|pp: int, pd: int, t: int|
                    0 <= pp <= p && 0 <= pd < g.prods[pp].len() && (pp < p || pd < d + 1) && 0 <= t < width
                        && g.prods[pp][pd] == sym && #[trigger] from[starts@[pp] + pd][t] implies cur[starts@[pp] + pd
                    + 1][t] by {
                    assert(starts@[pp] + g.prods[pp].len() < count);
                    if pp < p || pd < d {
                        assert(bbits[starts@[pp] + pd + 1][t]);
                        if starts@[pp] + pd + 1 == at {
                            assert(cur[at as int][t]);
                        }
                    }
                }
                if any0 {
                    let (pp, pd, t) = choose|pp: int, pd: int, t: int|
                        0 <= pp <= p && 0 <= pd < g.prods[pp].len() && (pp < p || pd < d) && 0 <= t < width
                            && g.prods[pp][pd] == sym && #[trigger] from[starts@[pp] + pd][t];
                    assert(from[starts@[pp] + pd][t]);
                } else if any {
                    let t = choose|t: int| 0 <= t < width && #[trigger] from[base + d][t];
                    assert(from[starts@[p as int] + d][t]);
                }
            }
            d += 1;
        }
        p += 1;
    }
    proof {
        let cur = rows_bits(next@);
        let items = items_of(g, starts@, rows@);
        let adv = advanced(g, items, sym);
        assert forall|it: Item| items_of(g, starts@, next@).contains(it) <==> adv.contains(it) by {
            if items_of(g, starts@, next@).contains(it) {
                let r = starts@[it.p] + it.d;
                assert(starts@[it.p] + g.prods[it.p].len() < count);
                assert(cur[r][it.t]);
                let (pp, pd) = choose|pp: int, pd: int|
                    0 <= pp < n && 0 <= pd < g.prods[pp].len() && r == starts@[pp] + pd + 1 && g.prods[pp][pd] == sym
                        && #[trigger] from[starts@[pp] + pd][it.t];
                lemma_row_of_item(g, starts@, count as int, it.p, it.d, pp, pd + 1);
                assert(items.contains(Item { p: it.p, d: it.d - 1, t: it.t }));
            }
            if adv.contains(it) {
                assert(items.contains(Item { p: it.p, d: it.d - 1, t: it.t }));
                assert(from[starts@[it.p] + (it.d - 1)][it.t]);
                assert(cur[starts@[it.p] + (it.d - 1) + 1][it.t]);
            }
        }
        assert(items_of(g, starts@, next@) =~= adv);
        if any {
            let (pp, pd, t) = choose|pp: int, pd: int, t: int|
                0 <= pp < n && 0 <= pd < g.prods[pp].len() && 0 <= t < width && g.prods[pp][pd] == sym
                    && #[trigger] from[starts@[pp] + pd][t];
            assert(adv.contains(Item { p: pp, d: pd + 1, t }));
        }
        if exists|it: Item| adv.contains(it) {
            let it = choose|it: Item| adv.contains(it);
            assert(items.contains(Item { p: it.p, d: it.d - 1, t: it.t }));
            assert(from[starts@[it.p] + (it.d - 1)][it.t]);
        }
    }
    (next, any)
}

/// Whether two states hold the same items.
fn same_state(a: &Vec<Vob<usize>>, b: &Vec<Vob<usize>>) -> (same: bool)
    ensures
        same == (rows_bits(a@) == rows_bits(b@)),
{
    if a.len() != b.len() {
        assert(rows_bits(a@).len() != rows_bits(b@).len());
        return false;
    }
    let mut i: usize = 0;
    while i < a.len()
        invariant
            a@.len() == b@.len(),
            i <= a@.len(),
            forall|r: int| 0 <= r < i ==> vob_bits(#[trigger] a@[r]) == vob_bits(b@[r]),
        decreases a@.len() - i,
    {
        if !vob_eq(&a[i], &b[i]) {
            assert(rows_bits(a@)[i as int] != rows_bits(b@)[i as int]);
            return false;
        }
        i += 1;
    }
    assert(rows_bits(a@) =~= rows_bits(b@));
    true
}

/// The states of a table are states of the automaton of `g`.
pub open spec fn states_ok(g: Cfg, states: Seq<Vec<Vob<usize>>>, count: int) -> bool {
    forall|s: int| 0 <= s < states.len() ==> state_ok(g, (#[trigger] states[s])@, count)
}

/// The items of each state.
pub open spec fn state_items(g: Cfg, starts: Seq<usize>, states: Seq<Vec<Vob<usize>>>) -> Seq<Set<Item>> {
    Seq::new(states.len(), |s: int| items_of(g, starts, states[s]@))
}

/// The items with which the automaton starts: the productions of the start rule, with the
/// dot at their start and the end of the input as lookahead.
pub open spec fn start_items(g: Cfg) -> Set<Item> {
    Set::new(|it: Item| item_ok(g, it) && g.prod_rules[it.p] == g.start_rule && it.d == 0 && it.t == g.eof_token)
}

/// `to` is what follows state `s` after the symbol `sym`: where the dot of an item of `s`
/// stands before `sym`, the state whose items are the closure of those items with the dot
/// moved over `sym`; else nothing.
pub open spec fn follows_state(g: Cfg, items: Seq<Set<Item>>, s: int, sym: Symbol, to: Option<StIdx>) -> bool {
    if exists|it: Item| advanced(g, items[s], sym).contains(it) {
        to is Some && to->Some_0 < items.len() && items[to->Some_0 as int] == closure(g, advanced(g, items[s], sym))
    } else {
        to is None
    }
}

/// Every state but the first is what follows an earlier state after some symbol before
/// which the dot of an item of that state stands.
pub open spec fn states_follow(g: Cfg, items: Seq<Set<Item>>) -> bool {
    forall|s: int|
        1 <= s < items.len() ==> exists|pred: int, sym: Symbol|
            0 <= pred < s && g.symbol_ok(sym) && moves(g, items[pred], sym) && #[trigger] items[s] == closure(
                g,
                #[trigger] advanced(g, items[pred], sym),
            )
}

/// The symbol that stands at index `x` of a row of transitions: a rule or a token.
pub open spec fn sym_at(x: int, rules: bool) -> Symbol {
    if rules {
        Symbol::Rule(x as RIdx)
    } else {
        Symbol::Token(x as TIdx)
    }
}

/// The first `upto` entries of a row of transitions of state `s` are what follows `s`.
pub open spec fn row_fits(
    g: Cfg,
    items: Seq<Set<Item>>,
    s: int,
    row: Seq<Option<StIdx>>,
    upto: int,
    rules: bool,
) -> bool {
    forall|x: int| 0 <= x < upto ==> follows_state(g, items, s, sym_at(x, rules), #[trigger] row[x])
}

/// The rows of the first `n` states are what follows these states.
pub open spec fn rows_fit(
    g: Cfg,
    items: Seq<Set<Item>>,
    trans: Seq<Vec<Option<StIdx>>>,
    n: int,
    width: int,
    rules: bool,
) -> bool {
    &&& trans.len() == n
    &&& forall|s: int| 0 <= s < n ==> (#[trigger] trans[s])@.len() == width && row_fits(
        g,
        items,
        s,
        trans[s]@,
        width,
        rules,
    )
}

/// What follows a state still follows it when states are added.
proof fn lemma_follows_state_grows(
    g: Cfg,
    a: Seq<Set<Item>>,
    b: Seq<Set<Item>>,
    s: int,
    sym: Symbol,
    to: Option<StIdx>,
)
    requires
        a.len() <= b.len(),
        forall|k: int| 0 <= k < a.len() ==> #[trigger] b[k] == a[k],
        0 <= s < a.len(),
        follows_state(g, a, s, sym, to),
    ensures
        follows_state(g, b, s, sym, to),
{
    if exists|it: Item| advanced(g, a[s], sym).contains(it) {
        assert(b[to->Some_0 as int] == a[to->Some_0 as int]);
    }
}

/// The rows of transitions stay what they are when states are added.
proof fn lemma_rows_fit_grow(
    g: Cfg,
    a: Seq<Set<Item>>,
    b: Seq<Set<Item>>,
    trans: Seq<Vec<Option<StIdx>>>,
    n: int,
    width: int,
    rules: bool,
)
    requires
        a.len() <= b.len(),
        forall|k: int| 0 <= k < a.len() ==> #[trigger] b[k] == a[k],
        n <= a.len(),
        rows_fit(g, a, trans, n, width, rules),
    ensures
        rows_fit(g, b, trans, n, width, rules),
{
    assert forall|s: int| 0 <= s < n implies (#[trigger] trans[s])@.len() == width && row_fits(
        g,
        b,
        s,
        trans[s]@,
        width,
        rules,
    ) by {
        assert(row_fits(g, a, s, trans[s]@, width, rules));
        assert forall|x: int| 0 <= x < width implies follows_state(g, b, s, sym_at(x, rules), #[trigger] trans[s]@[x]) by {
            lemma_follows_state_grows(g, a, b, s, sym_at(x, rules), trans[s]@[x]);
        }
    }
}

/// One of `states` holds the bits of `next`.
pub open spec fn known(states: Seq<Vec<Vob<usize>>>, next: Seq<Vob<usize>>) -> bool {
    exists|j: int| 0 <= j < states.len() && rows_bits((#[trigger] states[j])@) == rows_bits(next)
}

/// A state holds the bits of `next` exactly if it holds the items of `next`.
proof fn lemma_known(g: Cfg, starts: Seq<usize>, count: int, states: Seq<Vec<Vob<usize>>>, next: Seq<Vob<usize>>)
    requires
        0 <= count,
        rows_used(g, starts, count),
        states_ok(g, states, count),
        state_ok(g, next, count),
    ensures
        known(states, next) <==> among(state_items(g, starts, states), items_of(g, starts, next)),
{
    let items = state_items(g, starts, states);
    if known(states, next) {
        let j = choose|j: int| 0 <= j < states.len() && rows_bits((#[trigger] states[j])@) == rows_bits(next);
        assert(items[j] == items_of(g, starts, next));
    }
    if among(items, items_of(g, starts, next)) {
        let j = choose|j: int| 0 <= j < items.len() && (#[trigger] items[j]) == items_of(g, starts, next);
        assert(state_ok(g, states[j]@, count));
        lemma_same_bits(g, starts, count, rows_bits(states[j]@), rows_bits(next));
    }
}

/// The index of the first state among `states` that holds the bits of `next`; if there is
/// none, `next` is added as a new state behind the others. `None`, with nothing added, if
/// there is none and the states are as many as can be numbered.
fn find_or_add(
    states: &mut Vec<Vec<Vob<usize>>>,
    next: Vec<Vob<usize>>,
    Ghost(g): Ghost<Cfg>,
    Ghost(starts): Ghost<Seq<usize>>,
    Ghost(count): Ghost<int>,
) -> (res: Option<StIdx>)
    requires
        states_ok(g, old(states)@, count),
        state_ok(g, next@, count),
        old(states)@.len() <= MAX_STATES,
    ensures
        states_ok(g, final(states)@, count),
        final(states)@.len() <= MAX_STATES,
        known(old(states)@, next@) ==> final(states)@ == old(states)@ && res is Some,
        !known(old(states)@, next@) && old(states)@.len() < MAX_STATES ==> final(states)@ == old(states)@.push(next)
            && res == Some(old(states)@.len() as StIdx),
        !known(old(states)@, next@) && old(states)@.len() >= MAX_STATES ==> final(states)@ == old(states)@
            && res is None,
        res matches Some(to) ==> to < final(states)@.len() && rows_bits(final(states)@[to as int]@) == rows_bits(
            next@,
        ) && forall|j: int| 0 <= j < to && j < old(states)@.len() ==> rows_bits((#[trigger] old(states)@[j])@)
            != rows_bits(next@),
{
    let mut j: usize = 0;
    while j < states.len()
        invariant
            j <= states@.len(),
            states@ == old(states)@,
            states@.len() <= MAX_STATES,
            states_ok(g, states@, count),
            forall|k: int| 0 <= k < j ==> rows_bits((#[trigger] states@[k])@) != rows_bits(next@),
        decreases states@.len() - j,
    {
        if same_state(&states[j], &next) {
            return Some(j as StIdx);
        }
        j += 1;
    }
    if states.len() >= MAX_STATES {
        return None;
    }
    let ghost before = states@;
    states.push(next);
    proof {
        assert forall|s: int| 0 <= s < states@.len() implies state_ok(g, (#[trigger] states@[s])@, count) by {
            if s < before.len() {
                assert(states@[s] == before[s]);
            }
        }
    }
    Some((states.len() - 1) as StIdx)
}

/// The state that follows state `i` after the symbol `sym`, if the dot of an item of the
/// state stands before the symbol; the state is added behind the others if it is not among
/// them. `Err`, with nothing added, if it is not among them and the states are as many as
/// can be numbered.
fn transition(
    grm: &YaccGrammar,
    firsts: &YaccFirsts,
    starts: &Vec<usize>,
    count: usize,
    states: &mut Vec<Vec<Vob<usize>>>,
    i: usize,
    sym: Symbol,
) -> (res: Result<Option<StIdx>, ()>)
    requires
        firsts.grammar() == grm@,
        starts_ok(grm@, starts@, count as int),
        rows_used(grm@, starts@, count as int),
        states_ok(grm@, old(states)@, count as int),
        i < old(states)@.len() <= MAX_STATES,
        grm@.symbol_ok(sym),
        states_follow(grm@, state_items(grm@, starts@, old(states)@)),
    ensures
        states_ok(grm@, final(states)@, count as int),
        old(states)@.len() <= final(states)@.len() <= MAX_STATES,
        forall|s: int| 0 <= s < old(states)@.len() ==> #[trigger] final(states)@[s] == old(states)@[s],
        states_follow(grm@, state_items(grm@, starts@, final(states)@)),
        distinct(state_items(grm@, starts@, old(states)@)) ==> distinct(
            state_items(grm@, starts@, final(states)@),
        ),
        res matches Ok(to) ==> follows_state(grm@, state_items(grm@, starts@, final(states)@), i as int, sym, to),
        res is Err <==> fills(grm@, state_items(grm@, starts@, old(states)@), i as int, sym),
        res is Err ==> final(states)@ == old(states)@,
        !moves(grm@, state_items(grm@, starts@, old(states)@)[i as int], sym) || among(
            state_items(grm@, starts@, old(states)@),
            closure(grm@, advanced(grm@, state_items(grm@, starts@, old(states)@)[i as int], sym)),
        ) ==> final(states)@ == old(states)@,
{
    let ghost g = grm@;
    let ghost items0 = state_items(g, starts@, states@);
    let (mut next, any) = advance(grm, starts, count, &states[i], sym);
    let ghost adv = advanced(g, items0[i as int], sym);
    if !any {
        return Ok(None);
    }
    close(grm, firsts, starts, count, &mut next);
    let ghost before = states@;
    proof {
        lemma_known(g, starts@, count as int, before, next@);
    }
    match find_or_add(states, next, Ghost(g), Ghost(starts@), Ghost(count as int)) {
        Some(to) => {
            proof {
                let items = state_items(g, starts@, states@);
                assert forall|k: int| 0 <= k < items0.len() implies #[trigger] items[k] == items0[k] by {
                    assert(states@[k] == before[k]);
                }
                assert(items[to as int] == closure(g, adv));
                assert(items[i as int] == items0[i as int]);
                assert forall|s: int| 1 <= s < items.len() implies exists|pred: int, sym2: Symbol|
                    0 <= pred < s && g.symbol_ok(sym2) && moves(g, items[pred], sym2) && #[trigger] items[s]
                        == closure(g, #[trigger] advanced(g, items[pred], sym2)) by {
                    if s < items0.len() {
                        let (pred, sym2) = choose|pred: int, sym2: Symbol|
                            0 <= pred < s && g.symbol_ok(sym2) && moves(g, items0[pred], sym2) && #[trigger] items0[s]
                                == closure(g, #[trigger] advanced(g, items0[pred], sym2));
                        assert(items[pred] == items0[pred]);
                        assert(items[s] == closure(g, advanced(g, items[pred], sym2)));
                    } else {
                        assert(s == to);
                        assert(items[s] == closure(g, advanced(g, items[i as int], sym)));
                    }
                }
                if distinct(items0) {
                    assert forall|j: int, k: int| 0 <= j < k < items.len() implies (#[trigger] items[j]) != (
                    #[trigger] items[k]) by {
                        if k < items0.len() {
                            assert(items0[j] != items0[k]);
                        } else {
                            assert(items0[j] == items[j]);
                        }
                    }
                }
            }
            Ok(Some(to))
        },
        None => Err(()),
    }
}

/// State `i` is followed after `sym` by a state that is none of `items`, and these are as
/// many as can be numbered.
pub open spec fn fills(g: Cfg, items: Seq<Set<Item>>, i: int, sym: Symbol) -> bool {
    &&& moves(g, items[i], sym)
    &&& !among(items, closure(g, advanced(g, items[i], sym)))
    &&& items.len() >= MAX_STATES
}

/// A row of `width` entries without a state.
fn no_transitions(width: usize) -> (row: Vec<Option<StIdx>>)
    ensures
        row@.len() == width,
        forall|x: int| 0 <= x < width ==> (#[trigger] row@[x]) is None,
{
    let mut row: Vec<Option<StIdx>> = Vec::new();
    while row.len() < width
        invariant
            row@.len() <= width,
            forall|x: int| 0 <= x < row@.len() ==> (#[trigger] row@[x]) is None,
        decreases width - row@.len(),
    {
        row.push(None);
    }
    row
}

/// The state with which the automaton starts, before its closure.
fn start_kernel(grm: &YaccGrammar, starts: &Vec<usize>, count: usize) -> (rows: Vec<Vob<usize>>)
    requires
        starts_ok(grm@, starts@, count as int),
    ensures
        state_ok(grm@, rows@, count as int),
        items_of(grm@, starts@, rows@) == start_items(grm@),
{
    let ghost g = grm@;
    let tokens_len = grm.tokens_len();
    let eof = grm.eof_token_idx();
    let start_rule = grm.start_rule_idx();
    let mut rows = empty_state(count, tokens_len as usize);
    let ps = grm.rule_to_prods(start_rule);
    let mut k: usize = 0;
    while k < ps.len()
        invariant
            g == grm@,
            tokens_len == g.tokens_len,
            eof == g.eof_token,
            eof < tokens_len,
            k <= ps@.len(),
            forall|j: int| 0 <= j < ps@.len() ==> g.is_prod_of(#[trigger] ps@[j] as int, start_rule as int),
            starts_ok(g, starts@, count as int),
            state_ok(g, rows@, count as int),
            forall|r: int, t: int|
                0 <= r < count && 0 <= t < tokens_len && #[trigger] rows_bits(rows@)[r][t] ==> t == eof && exists|
                    j: int,
                | 0 <= j < k && r == #[trigger] starts@[ps@[j] as int],
            forall|j: int| 0 <= j < k ==> rows_bits(rows@)[(#[trigger] starts@[ps@[j] as int]) as int][eof as int],
        decreases ps@.len() - k,
    {
        let p = ps[k];
        assert(g.is_prod_of(ps@[k as int] as int, start_rule as int));
        let at = starts[p as usize];
        assert(starts@[p as int] + g.prods[p as int].len() < count);
        let ghost before = rows@;
        let ghost bbits = rows_bits(before);
        assert(bbits[at as int].len() == tokens_len);
        vob_set(&mut rows[at], eof as usize, true);
        proof {
            let cur = rows_bits(rows@);
            assert forall|r: int| 0 <= r < count && r != at implies #[trigger] cur[r] == bbits[r] by {
                assert(rows@[r] == before[r]);
            }
            assert forall|r: int| 0 <= r < count implies (#[trigger] cur[r]).len() == tokens_len by {
                if r != at {
                    assert(bbits[r].len() == tokens_len);
                }
            }
            assert forall|r: int, t: int| 0 <= r < count && 0 <= t < tokens_len && #[trigger] cur[r][t] implies t
                == eof && exists|j: int| 0 <= j < k + 1 && r == #[trigger] starts@[ps@[j] as int] by {
                if r != at || bbits[r][t] {
                    assert(bbits[r][t]);
                    let j = choose|j: int| 0 <= j < k && r == #[trigger] starts@[ps@[j] as int];
                    assert(r == starts@[ps@[j] as int]);
                } else {
                    assert(r == starts@[ps@[k as int] as int]);
                }
            }
            assert forall|j: int| 0 <= j < k + 1 implies cur[(#[trigger] starts@[ps@[j] as int]) as int][eof as int] by {
                let r = starts@[ps@[j] as int] as int;
                assert(g.is_prod_of(ps@[j] as int, start_rule as int));
                assert(starts@[ps@[j] as int] + g.prods[ps@[j] as int].len() < count);
                if j < k && r != at {
                    assert(bbits[r][eof as int]);
                }
            }
        }
        k += 1;
    }
    proof {
        let cur = rows_bits(rows@);
        assert forall|it: Item| items_of(g, starts@, rows@).contains(it) <==> start_items(g).contains(it) by {
            if items_of(g, starts@, rows@).contains(it) {
                let r = starts@[it.p] + it.d;
                assert(starts@[it.p] + g.prods[it.p].len() < count);
                assert(cur[r][it.t]);
                let j = choose|j: int| 0 <= j < ps@.len() && r == #[trigger] starts@[ps@[j] as int];
                assert(g.is_prod_of(ps@[j] as int, start_rule as int));
                lemma_row_of_item(g, starts@, count as int, it.p, it.d, ps@[j] as int, 0);
            }
            if start_items(g).contains(it) {
                assert(g.is_prod_of(it.p, start_rule as int));
                assert(ps@.contains(it.p as PIdx));
                let j = choose|j: int| 0 <= j < ps@.len() && ps@[j] == it.p as PIdx;
                assert(cur[starts@[ps@[j] as int] as int][eof as int]);
            }
        }
        assert(items_of(g, starts@, rows@) =~= start_items(g));
    }
    rows
}

/// The row of transitions of state `i`: for each token, or for each rule, the state that
/// follows; states that were not among `states` are added behind the others, each once.
/// `None` if a state that follows is missing when the states are as many as can be numbered:
/// the automaton then has too many states.
fn transitions(
    grm: &YaccGrammar,
    firsts: &YaccFirsts,
    starts: &Vec<usize>,
    count: usize,
    states: &mut Vec<Vec<Vob<usize>>>,
    i: usize,
    rules: bool,
) -> (res: Option<Vec<Option<StIdx>>>)
    requires
        firsts.grammar() == grm@,
        starts_ok(grm@, starts@, count as int),
        rows_used(grm@, starts@, count as int),
        states_ok(grm@, old(states)@, count as int),
        i < old(states)@.len() <= MAX_STATES,
        follow_on(grm@, state_items(grm@, starts@, old(states)@)),
        distinct(state_items(grm@, starts@, old(states)@)),
    ensures
        states_ok(grm@, final(states)@, count as int),
        old(states)@.len() <= final(states)@.len() <= MAX_STATES,
        forall|s: int| 0 <= s < old(states)@.len() ==> #[trigger] final(states)@[s] == old(states)@[s],
        follow_on(grm@, state_items(grm@, starts@, final(states)@)),
        distinct(state_items(grm@, starts@, final(states)@)),
        res is None <==> exists|x: int|
            0 <= x < (if rules {
                grm@.rules_len
            } else {
                grm@.tokens_len
            }) && fills(grm@, state_items(grm@, starts@, final(states)@), i as int, #[trigger] sym_at(x, rules)),
        res is None ==> too_many_states(grm@),
        res matches Some(row) ==> {
            let width = if rules {
                grm@.rules_len
            } else {
                grm@.tokens_len
            };
            &&& row@.len() == width
            &&& row_fits(grm@, state_items(grm@, starts@, final(states)@), i as int, row@, width as int, rules)
            &&& forall|x: int| 0 <= x < width ==> ((#[trigger] row@[x]) matches Some(to) ==> to < final(states)@.len())
        },
{
    let ghost g = grm@;
    let width = if rules {
        grm.rules_len()
    } else {
        grm.tokens_len()
    };
    let mut row = no_transitions(width as usize);
    let mut x: u32 = 0;
    while x < width
        invariant
            g == grm@,
            width == (if rules {
                g.rules_len
            } else {
                g.tokens_len
            }),
            firsts.grammar() == g,
            starts_ok(g, starts@, count as int),
            rows_used(g, starts@, count as int),
            x <= width,
            i < old(states)@.len(),
            old(states)@.len() <= states@.len() <= MAX_STATES,
            forall|s: int| 0 <= s < old(states)@.len() ==> #[trigger] states@[s] == old(states)@[s],
            states_ok(g, states@, count as int),
            follow_on(g, state_items(g, starts@, states@)),
            distinct(state_items(g, starts@, states@)),
            row@.len() == width,
            row_fits(g, state_items(g, starts@, states@), i as int, row@, x as int, rules),
            forall|y: int| 0 <= y < width ==> ((#[trigger] row@[y]) matches Some(to) ==> to < states@.len()),
        decreases width - x,
    {
        let sym = if rules {
            Symbol::Rule(x)
        } else {
            Symbol::Token(x)
        };
        let ghost states0 = states@;
        let ghost items0 = state_items(g, starts@, states0);
        let ghost row0 = row@;
        match transition(grm, firsts, starts, count, states, i, sym) {
            Ok(to) => {
                row.set(x as usize, to);
                proof {
                    let items = state_items(g, starts@, states@);
                    assert forall|k: int| 0 <= k < items0.len() implies #[trigger] items[k] == items0[k] by {
                        assert(states@[k] == states0[k]);
                    }
                    assert(items[0] == items0[0]);
                    assert forall|y: int| 0 <= y < x + 1 implies follows_state(
                        g,
                        items,
                        i as int,
                        sym_at(y, rules),
                        #[trigger] row@[y],
                    ) by {
                        if y < x {
                            assert(row@[y] == row0[y]);
                            lemma_follows_state_grows(g, items0, items, i as int, sym_at(y, rules), row0[y]);
                        }
                    }
                    assert forall|y: int| 0 <= y < width implies ((#[trigger] row@[y]) matches Some(to2) ==> to2
                        < states@.len()) by {
                        if y != x {
                            assert(row@[y] == row0[y]);
                        } else if to is Some {
                            if exists|it: Item| advanced(g, items[i as int], sym).contains(it) {
                            }
                        }
                    }
                }
            },
            Err(_) => {
                proof {
                    lemma_too_many(g, items0, i as int, sym);
                    assert(fills(g, items0, i as int, sym_at(x as int, rules)));
                }
                return None;
            },
        }
        x += 1;
    }
    proof {
        let items = state_items(g, starts@, states@);
        assert forall|y: int| 0 <= y < width implies !fills(g, items, i as int, #[trigger] sym_at(y, rules)) by {
            assert(follows_state(g, items, i as int, sym_at(y, rules), row@[y]));
            if moves(g, items[i as int], sym_at(y, rules)) {
                assert(items[row@[y]->Some_0 as int] == closure(g, advanced(g, items[i as int], sym_at(y, rules))));
            }
        }
    }
    Some(row)
}

/// The automaton of `grm`: its states, each once, and for each state the state that follows
/// it after each token and after each rule. `None` exactly if the automaton has more than
/// [`MAX_STATES`] states.
fn build_states(grm: &YaccGrammar, firsts: &YaccFirsts, starts: &Vec<usize>, count: usize) -> (res: Option<
    (Vec<Vec<Vob<usize>>>, Vec<Vec<Option<StIdx>>>, Vec<Vec<Option<StIdx>>>),
>)
    requires
        firsts.grammar() == grm@,
        starts_ok(grm@, starts@, count as int),
        rows_used(grm@, starts@, count as int),
    ensures
        res is None <==> too_many_states(grm@),
        res matches Some((states, on_token, on_rule)) ==> {
            let items = state_items(grm@, starts@, states@);
            &&& 1 <= states@.len() <= MAX_STATES
            &&& states_ok(grm@, states@, count as int)
            &&& items[0] == closure(grm@, start_items(grm@))
            &&& states_follow(grm@, items)
            &&& distinct(items)
            &&& rows_fit(grm@, items, on_token@, states@.len() as int, grm@.tokens_len as int, false)
            &&& rows_fit(grm@, items, on_rule@, states@.len() as int, grm@.rules_len as int, true)
        },
{
    let ghost g = grm@;
    let tokens_len = grm.tokens_len();
    let rules_len = grm.rules_len();
    let mut first = start_kernel(grm, starts, count);
    close(grm, firsts, starts, count, &mut first);
    let mut states: Vec<Vec<Vob<usize>>> = Vec::new();
    states.push(first);
    let mut on_token: Vec<Vec<Option<StIdx>>> = Vec::new();
    let mut on_rule: Vec<Vec<Option<StIdx>>> = Vec::new();
    let mut i: usize = 0;
    while i < states.len()
        invariant
            g == grm@,
            tokens_len == g.tokens_len,
            rules_len == g.rules_len,
            firsts.grammar() == g,
            starts_ok(g, starts@, count as int),
            rows_used(g, starts@, count as int),
            i <= states@.len(),
            1 <= states@.len() <= MAX_STATES,
            states_ok(g, states@, count as int),
            state_items(g, starts@, states@)[0] == closure(g, start_items(g)),
            states_follow(g, state_items(g, starts@, states@)),
            distinct(state_items(g, starts@, states@)),
            rows_fit(g, state_items(g, starts@, states@), on_token@, i as int, tokens_len as int, false),
            rows_fit(g, state_items(g, starts@, states@), on_rule@, i as int, rules_len as int, true),
        decreases MAX_STATES - i,
    {
        let ghost states0 = states@;
        let ghost items0 = state_items(g, starts@, states0);
        let row_t = match transitions(grm, firsts, starts, count, &mut states, i, false) {
            Some(row) => row,
            None => {
                return None;
            },
        };
        let ghost states1 = states@;
        let ghost items1 = state_items(g, starts@, states1);
        let row_r = match transitions(grm, firsts, starts, count, &mut states, i, true) {
            Some(row) => row,
            None => {
                return None;
            },
        };
        let ghost tok0 = on_token@;
        let ghost rule0 = on_rule@;
        on_token.push(row_t);
        on_rule.push(row_r);
        proof {
            let items = state_items(g, starts@, states@);
            assert forall|k: int| 0 <= k < items0.len() implies #[trigger] items1[k] == items0[k] by {
                assert(states1[k] == states0[k]);
            }
            assert forall|k: int| 0 <= k < items1.len() implies #[trigger] items[k] == items1[k] by {
                assert(states@[k] == states1[k]);
            }
            assert forall|k: int| 0 <= k < items0.len() implies #[trigger] items[k] == items0[k] by {
                assert(items1[k] == items0[k]);
            }
            lemma_rows_fit_grow(g, items0, items, tok0, i as int, tokens_len as int, false);
            lemma_rows_fit_grow(g, items0, items, rule0, i as int, rules_len as int, true);
            assert(rows_fit(g, items, on_token@, i + 1, tokens_len as int, false)) by {
                assert forall|s: int| 0 <= s < i + 1 implies (#[trigger] on_token@[s])@.len() == tokens_len
                    && row_fits(g, items, s, on_token@[s]@, tokens_len as int, false) by {
                    if s < i {
                        assert(on_token@[s] == tok0[s]);
                    } else {
                        assert forall|x: int| 0 <= x < tokens_len implies follows_state(
                            g,
                            items,
                            s,
                            sym_at(x, false),
                            #[trigger] on_token@[s]@[x],
                        ) by {
                            lemma_follows_state_grows(g, items1, items, s, sym_at(x, false), on_token@[s]@[x]);
                        }
                    }
                }
            }
            assert(rows_fit(g, items, on_rule@, i + 1, rules_len as int, true)) by {
                assert forall|s: int| 0 <= s < i + 1 implies (#[trigger] on_rule@[s])@.len() == rules_len
                    && row_fits(g, items, s, on_rule@[s]@, rules_len as int, true) by {
                    if s < i {
                        assert(on_rule@[s] == rule0[s]);
                    }
                }
            }
            assert(items[0] == items0[0]);
        }
        i += 1;
    }
    proof {
        let items = state_items(g, starts@, states@);
        assert forall|s: int, sym: Symbol|
            0 <= s < items.len() && g.symbol_ok(sym) && moves(g, items[s], sym) implies among(
            items,
            closure(g, #[trigger] advanced(g, items[s], sym)),
        ) by {
            let to = match sym {
                Symbol::Token(t) => {
                    assert(row_fits(g, items, s, on_token@[s]@, tokens_len as int, false));
                    assert(sym_at(t as int, false) == sym);
                    assert(follows_state(g, items, s, sym_at(t as int, false), on_token@[s]@[t as int]));
                    on_token@[s]@[t as int]
                },
                Symbol::Rule(r) => {
                    assert(row_fits(g, items, s, on_rule@[s]@, rules_len as int, true));
                    assert(sym_at(r as int, true) == sym);
                    assert(follows_state(g, items, s, sym_at(r as int, true), on_rule@[s]@[r as int]));
                    on_rule@[s]@[r as int]
                },
            };
            assert(items[to->Some_0 as int] == closure(g, advanced(g, items[s], sym)));
        }
        lemma_not_too_many(g, items);
    }
    Some((states, on_token, on_rule))
}

/// The item of production `p` with the dot behind its last symbol and the lookahead `t` is
/// among `items`.
pub open spec fn completes(g: Cfg, items: Set<Item>, p: int, t: int) -> bool {
    0 <= p < g.prods.len() && items.contains(Item { p, d: g.prods[p].len() as int, t })
}

/// Production `p` is the first whose item with the dot behind its last symbol and the
/// lookahead `t` is among `items`.
pub open spec fn reduces_by(g: Cfg, items: Set<Item>, p: int, t: int) -> bool {
    completes(g, items, p, t) && forall|q: int| 0 <= q < p ==> !completes(g, items, q, t)
}

/// The action `a` is that of a state with the items `items` on token `t`, where the state
/// does not shift `t`: the state accepts if `t` is the end of the input and the first
/// production that it can reduce by is one of the start rule; else it reduces by the first
/// production that it can reduce by; else it fails.
pub open spec fn reduction_fits(g: Cfg, items: Set<Item>, t: int, a: Action) -> bool {
    match a {
        Action::Shift(_) => false,
        Action::Reduce(p) => reduces_by(g, items, p as int, t) && !(g.prod_rules[p as int] == g.start_rule && t
            == g.eof_token),
        Action::Accept => t == g.eof_token && exists|p: int|
            #[trigger] reduces_by(g, items, p, t) && g.prod_rules[p] == g.start_rule,
        Action::Error => forall|p: int| !#[trigger] completes(g, items, p, t),
    }
}

/// The action of a state on token `t`, where the state does not shift it.
fn reduction(grm: &YaccGrammar, starts: &Vec<usize>, count: usize, rows: &Vec<Vob<usize>>, t: TIdx) -> (a: Action)
    requires
        starts_ok(grm@, starts@, count as int),
        state_ok(grm@, rows@, count as int),
        t < grm@.tokens_len,
    ensures
        reduction_fits(grm@, items_of(grm@, starts@, rows@), t as int, a),
        a matches Action::Reduce(p) ==> p < grm@.prods.len(),
{
    let n = grm.prods_len();
    let eof = grm.eof_token_idx();
    let start_rule = grm.start_rule_idx();
    let ghost g = grm@;
    let ghost items = items_of(g, starts@, rows@);
    let mut p: PIdx = 0;
    while p < n
        invariant
            g == grm@,
            p <= n,
            n == g.prods.len(),
            eof == g.eof_token,
            start_rule == g.start_rule,
            t < g.tokens_len,
            items == items_of(g, starts@, rows@),
            starts_ok(g, starts@, count as int),
            state_ok(g, rows@, count as int),
            forall|q: int| 0 <= q < p ==> !completes(g, items, q, t as int),
        decreases n - p,
    {
        let at = starts[p as usize] + grm.prod(p).len();
        assert(starts@[p as int] + g.prods[p as int].len() < count);
        assert(rows_bits(rows@)[at as int].len() == g.tokens_len);
        if vob_get(&rows[at], t as usize) {
            assert(completes(g, items, p as int, t as int));
            assert(reduces_by(g, items, p as int, t as int));
            if grm.prod_to_rule(p) == start_rule && t == eof {
                return Action::Accept;
            }
            return Action::Reduce(p);
        }
        p += 1;
    }
    Action::Error
}

/// The action `a` is that of state `s` on token `t`: where the dot of an item of the state
/// stands before `t`, the state shifts, and the state that follows holds the closure of
/// those items with the dot moved over `t`; for the rest see [`reduction_fits`].
pub open spec fn action_fits(g: Cfg, items: Seq<Set<Item>>, s: int, t: int, a: Action) -> bool {
    let sym = Symbol::Token(t as TIdx);
    if exists|it: Item| advanced(g, items[s], sym).contains(it) {
        a is Shift && follows_state(g, items, s, sym, Some(a->Shift_0))
    } else {
        reduction_fits(g, items[s], t, a)
    }
}

/// The table is that of the LR(1) automaton with the states `items`. The first state holds
/// the closure of the start items, and every other state is what follows an earlier state
/// after some symbol; the actions and the transitions after rules are those of the states.
pub open spec fn is_automaton(g: Cfg, lr: crate::statetable::Lr, items: Seq<Set<Item>>) -> bool {
    &&& lr.fits(g)
    &&& items.len() == lr.actions.len()
    &&& items[0] == closure(g, start_items(g))
    &&& states_follow(g, items)
    &&& forall|s: int, t: int|
        0 <= s < items.len() && 0 <= t < g.tokens_len ==> action_fits(g, items, s, t, #[trigger] lr.actions[s][t])
    &&& forall|s: int, r: int|
        0 <= s < items.len() && 0 <= r < g.rules_len ==> follows_state(
            g,
            items,
            s,
            Symbol::Rule(r as RIdx),
            #[trigger] lr.gotos[s][r],
        )
}

/// The table is that of the LR(1) automaton of the grammar, where a state that can shift a
/// token does so, and a state that can reduce by several productions reduces by the first.
pub open spec fn is_lr1_table(g: Cfg, lr: crate::statetable::Lr) -> bool {
    exists|items: Seq<Set<Item>>| is_automaton(g, lr, items)
}

/// The grammar is too large for a table: the places of the dot in its productions are more
/// than can be counted, or its automaton has more than [`MAX_STATES`] states.
pub open spec fn too_large(g: Cfg) -> bool {
    rows_total(g) > usize::MAX || too_many_states(g)
}

/// The LR(1) state table of `grm`, or `None` if the grammar is too large for one.
pub fn build_table(grm: &YaccGrammar) -> (res: Option<StateTable>)
    ensures
        res is None <==> too_large(grm@),
        res matches Some(st) ==> st@.fits(grm@) && is_lr1_table(grm@, st@),
{
    let ghost g = grm@;
    let tokens_len = grm.tokens_len();
    let (starts, count) = match index_items(grm) {
        Some(x) => x,
        None => {
            return None;
        },
    };
    let firsts = YaccFirsts::new(grm);
    let (states, on_token, on_rule) = match build_states(grm, &firsts, &starts, count) {
        Some(x) => x,
        None => {
            return None;
        },
    };
    let ghost items = state_items(g, starts@, states@);
    let mut actions: Vec<Vec<Action>> = Vec::new();
    let mut s: usize = 0;
    while s < states.len()
        invariant
            g == grm@,
            tokens_len == g.tokens_len,
            s <= states@.len(),
            actions@.len() == s,
            1 <= states@.len() <= MAX_STATES,
            items == state_items(g, starts@, states@),
            starts_ok(g, starts@, count as int),
            states_ok(g, states@, count as int),
            rows_fit(g, items, on_token@, states@.len() as int, tokens_len as int, false),
            forall|q: int| 0 <= q < s ==> (#[trigger] actions@[q])@.len() == tokens_len,
            forall|q: int, t: int|
                0 <= q < s && 0 <= t < tokens_len ==> action_fits(g, items, q, t, #[trigger] actions@[q]@[t]),
            forall|q: int, t: int|
                0 <= q < s && 0 <= t < tokens_len ==> match #[trigger] actions@[q]@[t] {
                    Action::Shift(to) => to < states@.len(),
                    Action::Reduce(p) => p < g.prods.len(),
                    Action::Accept => t == g.eof_token,
                    Action::Error => true,
                },
        decreases states@.len() - s,
    {
        let mut row: Vec<Action> = Vec::new();
        let mut t: TIdx = 0;
        while t < tokens_len
            invariant
                g == grm@,
                tokens_len == g.tokens_len,
                t <= tokens_len,
                s < states@.len(),
                row@.len() == t,
                items == state_items(g, starts@, states@),
                starts_ok(g, starts@, count as int),
                states_ok(g, states@, count as int),
                rows_fit(g, items, on_token@, states@.len() as int, tokens_len as int, false),
                forall|u: int| 0 <= u < t ==> action_fits(g, items, s as int, u, #[trigger] row@[u]),
                forall|u: int|
                    0 <= u < t ==> match #[trigger] row@[u] {
                        Action::Shift(to) => to < states@.len(),
                        Action::Reduce(p) => p < g.prods.len(),
                        Action::Accept => u == g.eof_token,
                        Action::Error => true,
                    },
            decreases tokens_len - t,
        {
            assert(on_token@[s as int]@.len() == tokens_len);
            assert(row_fits(g, items, s as int, on_token@[s as int]@, tokens_len as int, false));
            assert(follows_state(g, items, s as int, sym_at(t as int, false), on_token@[s as int]@[t as int]));
            let a = match on_token[s][t as usize] {
                Some(to) => Action::Shift(to),
                None => reduction(grm, &starts, count, &states[s], t),
            };
            proof {
                assert(items[s as int] == items_of(g, starts@, states@[s as int]@));
                assert(action_fits(g, items, s as int, t as int, a));
            }
            row.push(a);
            t += 1;
        }
        let ghost done = actions@;
        actions.push(row);
        proof {
            assert forall|q: int| 0 <= q < s + 1 implies (#[trigger] actions@[q])@.len() == tokens_len by {
                if q < s {
                    assert(actions@[q] == done[q]);
                }
            }
            assert forall|q: int, t: int| 0 <= q < s + 1 && 0 <= t < tokens_len implies action_fits(
                g,
                items,
                q,
                t,
                #[trigger] actions@[q]@[t],
            ) by {
                if q < s {
                    assert(actions@[q] == done[q]);
                }
            }
            assert forall|q: int, t: int| 0 <= q < s + 1 && 0 <= t < tokens_len implies match #[trigger] actions@[q]@[t] {
                Action::Shift(to) => to < states@.len(),
                Action::Reduce(p) => p < g.prods.len(),
                Action::Accept => t == g.eof_token,
                Action::Error => true,
            } by {
                if q < s {
                    assert(actions@[q] == done[q]);
                }
            }
        }
        s += 1;
    }
    let ghost acts = actions@;
    let ghost gotos = on_rule@;
    let st = StateTable::from_rows(actions, on_rule, 0);
    proof {
        let lr = st@;
        assert forall|q: int| 0 <= q < lr.actions.len() implies (#[trigger] lr.actions[q]).len() == g.tokens_len by {
            assert(lr.actions[q] == acts[q]@);
        }
        assert forall|q: int| 0 <= q < lr.gotos.len() implies (#[trigger] lr.gotos[q]).len() == g.rules_len by {
            assert(lr.gotos[q] == gotos[q]@);
        }
        assert forall|q: int, t: int| 0 <= q < lr.actions.len() && 0 <= t < g.tokens_len implies match #[trigger] lr.actions[q][t] {
            Action::Shift(to) => to < lr.actions.len(),
            Action::Reduce(p) => p < g.prods.len(),
            Action::Accept => t == g.eof_token,
            Action::Error => true,
        } by {
            assert(lr.actions[q][t] == acts[q]@[t]);
        }
        assert forall|q: int, r: int| 0 <= q < lr.gotos.len() && 0 <= r < g.rules_len implies ((
        #[trigger] lr.gotos[q][r]) matches Some(to) ==> to < lr.actions.len()) by {
            assert(lr.gotos[q][r] == gotos[q]@[r]);
            assert(row_fits(g, items, q, gotos[q]@, g.rules_len as int, true));
            assert(follows_state(g, items, q, sym_at(r, true), gotos[q]@[r]));
        }
        assert(lr.fits(g));
        assert forall|q: int, t: int| 0 <= q < items.len() && 0 <= t < g.tokens_len implies action_fits(
            g,
            items,
            q,
            t,
            #[trigger] lr.actions[q][t],
        ) by {
            assert(lr.actions[q][t] == acts[q]@[t]);
        }
        assert forall|q: int, r: int| 0 <= q < items.len() && 0 <= r < g.rules_len implies follows_state(
            g,
            items,
            q,
            Symbol::Rule(r as RIdx),
            #[trigger] lr.gotos[q][r],
        ) by {
            assert(lr.gotos[q][r] == gotos[q]@[r]);
            assert(row_fits(g, items, q, gotos[q]@, g.rules_len as int, true));
            assert(follows_state(g, items, q, sym_at(r, true), gotos[q]@[r]));
        }
        assert(is_automaton(g, lr, items));
    }
    Some(st)
}

} // verus!
