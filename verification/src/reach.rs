//! The states that the LR(1) automaton of a grammar has, whatever builds them, and when they
//! are too many to be numbered.

use crate::bitrows::has_shape;
use crate::grammar::{Cfg, Symbol};
use crate::stategraph::{advanced, closure, items_bits, start_items, states_follow, Item, MAX_STATES};
use vstd::prelude::*;

verus! {

/// The number of rows that the productions before production `p` take in a state: one for
/// each place of the dot in each of them.
pub open spec fn rows_before(g: Cfg, p: int) -> int
    decreases p,
{
    if p <= 0 {
        0
    } else {
        rows_before(g, p - 1) + g.prods[p - 1].len() + 1
    }
}

/// The number of rows of a state: one for each place of the dot in each production.
pub open spec fn rows_total(g: Cfg) -> int {
    rows_before(g, g.prods.len() as int)
}

/// The productions before a later production take at least the rows of those before an
/// earlier one.
pub proof fn lemma_rows_grow(g: Cfg, p: int, q: int)
    requires
        0 <= p <= q,
    ensures
        0 <= rows_before(g, p) <= rows_before(g, q),
    decreases q,
{
    if q > 0 {
        if p < q {
            lemma_rows_grow(g, p, q - 1);
        } else {
            lemma_rows_grow(g, p - 1, q - 1);
        }
    }
}

/// The row of production `p` with the dot before its symbol `d`.
pub open spec fn row_of(starts: Seq<usize>, p: int, d: int) -> int {
    starts[p] + d
}

/// Row `r` is that of one of the first `upto` productions and some place of the dot in it.
pub open spec fn row_among(g: Cfg, starts: Seq<usize>, upto: int, r: int) -> bool {
    exists|p: int, d: int| 0 <= p < upto && 0 <= d <= g.prods[p].len() && #[trigger] row_of(starts, p, d) == r
}

/// Row `r` is that of some production and some place of the dot in it.
pub open spec fn row_used(g: Cfg, starts: Seq<usize>, r: int) -> bool {
    row_among(g, starts, g.prods.len() as int, r)
}

/// Each of the first `count` rows is that of some production and some place of the dot.
pub open spec fn rows_used(g: Cfg, starts: Seq<usize>, count: int) -> bool {
    forall|r: int| 0 <= r < count ==> #[trigger] row_used(g, starts, r)
}

/// Two tables of bits that hold the same items are the same, where each row is that of some
/// item.
pub proof fn lemma_same_bits(g: Cfg, starts: Seq<usize>, count: int, a: Seq<Seq<bool>>, b: Seq<Seq<bool>>)
    requires
        0 <= count,
        rows_used(g, starts, count),
        has_shape(a, count as nat, g.tokens_len as nat),
        has_shape(b, count as nat, g.tokens_len as nat),
        items_bits(g, starts, a) == items_bits(g, starts, b),
    ensures
        a == b,
{
    assert forall|r: int| 0 <= r < count implies a[r] == b[r] by {
        assert(row_used(g, starts, r));
        let (p, d) = choose|p: int, d: int|
            0 <= p < g.prods.len() as int && 0 <= d <= g.prods[p].len() && #[trigger] row_of(starts, p, d) == r;
        assert forall|t: int| 0 <= t < g.tokens_len implies a[r][t] == b[r][t] by {
            let it = Item { p, d, t };
            assert(items_bits(g, starts, a).contains(it) == a[r][t]);
            assert(items_bits(g, starts, b).contains(it) == b[r][t]);
        }
        assert(a[r] =~= b[r]);
    }
    assert(a =~= b);
}

/// The dot of an item of `from` stands before `sym`.
pub open spec fn moves(g: Cfg, from: Set<Item>, sym: Symbol) -> bool {
    exists|it: Item| advanced(g, from, sym).contains(it)
}

/// The automaton comes in `n` steps to the state with the items `items`: with no step, to
/// the closure of the start items; with each further step, from a state in which the dot of
/// an item stands before some symbol to the closure of its items with the dot moved over the
/// symbol.
pub open spec fn reached(g: Cfg, items: Set<Item>, n: nat) -> bool
    decreases n,
{
    if n == 0 {
        items == closure(g, start_items(g))
    } else {
        exists|from: Set<Item>, sym: Symbol|
            reached(g, from, (n - 1) as nat) && g.symbol_ok(sym) && moves(g, from, sym) && items == closure(
                g,
                #[trigger] advanced(g, from, sym),
            )
    }
}

/// The items `items` are a state of the automaton of `g`.
pub open spec fn is_state(g: Cfg, items: Set<Item>) -> bool {
    exists|n: nat| reached(g, items, n)
}

/// `items` is one of `sets`.
pub open spec fn among(sets: Seq<Set<Item>>, items: Set<Item>) -> bool {
    exists|j: int| 0 <= j < sets.len() && (#[trigger] sets[j]) == items
}

/// No two of `sets` are the same.
pub open spec fn distinct(sets: Seq<Set<Item>>) -> bool {
    forall|j: int, k: int| 0 <= j < k < sets.len() ==> (#[trigger] sets[j]) != (#[trigger] sets[k])
}

/// `sets` are more than [`MAX_STATES`] states of the automaton of `g`, each once.
pub open spec fn more_states(g: Cfg, sets: Seq<Set<Item>>) -> bool {
    &&& sets.len() > MAX_STATES
    &&& distinct(sets)
    &&& forall|k: int| 0 <= k < sets.len() ==> is_state(g, #[trigger] sets[k])
}

/// The automaton of `g` has more than [`MAX_STATES`] states.
pub open spec fn too_many_states(g: Cfg) -> bool {
    exists|sets: Seq<Set<Item>>| more_states(g, sets)
}

/// Every state after which a symbol can come is followed by one of the states.
pub open spec fn complete(g: Cfg, sets: Seq<Set<Item>>) -> bool {
    forall|s: int, sym: Symbol|
        0 <= s < sets.len() && g.symbol_ok(sym) && moves(g, sets[s], sym) ==> among(
            sets,
            closure(g, #[trigger] advanced(g, sets[s], sym)),
        )
}

/// The first of `sets` is the state with which the automaton starts, and each other one is
/// what follows an earlier one after some symbol.
pub open spec fn follow_on(g: Cfg, sets: Seq<Set<Item>>) -> bool {
    &&& sets.len() >= 1
    &&& sets[0] == closure(g, start_items(g))
    &&& states_follow(g, sets)
}

/// Sets of which each follows on an earlier one are states of the automaton.
pub proof fn lemma_states_reached(g: Cfg, sets: Seq<Set<Item>>, s: int)
    requires
        follow_on(g, sets),
        0 <= s < sets.len(),
    ensures
        is_state(g, sets[s]),
    decreases s,
{
    if s == 0 {
        assert(reached(g, sets[0], 0));
    } else {
        let (pred, sym) = choose|pred: int, sym: Symbol|
            0 <= pred < s && g.symbol_ok(sym) && moves(g, sets[pred], sym) && #[trigger] sets[s] == closure(
                g,
                #[trigger] advanced(g, sets[pred], sym),
            );
        lemma_states_reached(g, sets, pred);
        let n = choose|n: nat| reached(g, sets[pred], n);
        lemma_step(g, sets[pred], sym, n);
    }
}

/// What follows a state of the automaton after a symbol is a state of the automaton.
pub proof fn lemma_step(g: Cfg, from: Set<Item>, sym: Symbol, n: nat)
    requires
        reached(g, from, n),
        g.symbol_ok(sym),
        moves(g, from, sym),
    ensures
        reached(g, closure(g, advanced(g, from, sym)), n + 1),
        is_state(g, closure(g, advanced(g, from, sym))),
{
    let to = closure(g, advanced(g, from, sym));
    assert(reached(g, from, ((n + 1) - 1) as nat) && g.symbol_ok(sym) && moves(g, from, sym) && to == closure(
        g,
        advanced(g, from, sym),
    ));
    assert(reached(g, to, n + 1));
}

/// Where as many distinct states as can be numbered are followed by one more, the automaton
/// has too many states.
pub proof fn lemma_too_many(g: Cfg, sets: Seq<Set<Item>>, i: int, sym: Symbol)
    requires
        follow_on(g, sets),
        distinct(sets),
        sets.len() >= MAX_STATES,
        0 <= i < sets.len(),
        g.symbol_ok(sym),
        moves(g, sets[i], sym),
        !among(sets, closure(g, advanced(g, sets[i], sym))),
    ensures
        too_many_states(g),
{
    let to = closure(g, advanced(g, sets[i], sym));
    let more = sets.push(to);
    assert forall|j: int, k: int| 0 <= j < k < more.len() implies (#[trigger] more[j]) != (#[trigger] more[k]) by {
        if k == sets.len() {
            assert(sets[j] == more[j]);
        } else {
            assert(sets[j] != sets[k]);
        }
    }
    assert forall|k: int| 0 <= k < more.len() implies is_state(g, #[trigger] more[k]) by {
        if k < sets.len() {
            lemma_states_reached(g, sets, k);
        } else {
            lemma_states_reached(g, sets, i);
            let n = choose|n: nat| reached(g, sets[i], n);
            lemma_step(g, sets[i], sym, n);
        }
    }
    assert(more_states(g, more));
}

/// A state of the automaton is among sets that start with its first state and hold what
/// follows each of them.
pub proof fn lemma_reached_among(g: Cfg, sets: Seq<Set<Item>>, items: Set<Item>, n: nat)
    requires
        sets.len() >= 1,
        sets[0] == closure(g, start_items(g)),
        complete(g, sets),
        reached(g, items, n),
    ensures
        among(sets, items),
    decreases n,
{
    if n == 0 {
        assert(sets[0] == items);
    } else {
        let (from, sym) = choose|from: Set<Item>, sym: Symbol|
            reached(g, from, (n - 1) as nat) && g.symbol_ok(sym) && moves(g, from, sym) && items == closure(
                g,
                #[trigger] advanced(g, from, sym),
            );
        lemma_reached_among(g, sets, from, (n - 1) as nat);
        let j = choose|j: int| 0 <= j < sets.len() && (#[trigger] sets[j]) == from;
        assert(among(sets, closure(g, advanced(g, sets[j], sym))));
    }
}

/// Different indices below `n` are at most `n`.
pub proof fn lemma_injective_bound(from: Seq<int>, n: int)
    requires
        0 <= n,
        forall|k: int| 0 <= k < from.len() ==> 0 <= #[trigger] from[k] < n,
        forall|k: int, l: int| 0 <= k < l < from.len() ==> #[trigger] from[k] != #[trigger] from[l],
    ensures
        from.len() <= n,
    decreases n,
{
    if n == 0 {
        if from.len() > 0 {
            let x = from[0];
            assert(0 <= x && x < n);
        }
    } else if exists|k: int| 0 <= k < from.len() && #[trigger] from[k] == n - 1 {
        let k = choose|k: int| 0 <= k < from.len() && #[trigger] from[k] == n - 1;
        let rest = from.remove(k);
        assert forall|i: int| 0 <= i < rest.len() implies 0 <= #[trigger] rest[i] < n - 1 by {
            if i < k {
                assert(rest[i] == from[i]);
                assert(from[i] != from[k]);
            } else {
                assert(rest[i] == from[i + 1]);
                assert(from[k] != from[i + 1]);
            }
        }
        assert forall|e: int, f: int| 0 <= e < f < rest.len() implies #[trigger] rest[e] != #[trigger] rest[f] by {
            let ee = if e < k {
                e
            } else {
                e + 1
            };
            let ff = if f < k {
                f
            } else {
                f + 1
            };
            assert(rest[e] == from[ee]);
            assert(rest[f] == from[ff]);
            assert(from[ee] != from[ff]);
        }
        lemma_injective_bound(rest, n - 1);
    } else {
        assert forall|i: int| 0 <= i < from.len() implies 0 <= #[trigger] from[i] < n - 1 by {
            assert(from[i] != n - 1);
        }
        lemma_injective_bound(from, n - 1);
    }
}

/// An automaton that holds what follows each of its states, in states that can be numbered,
/// shows that the states are not too many.
pub proof fn lemma_not_too_many(g: Cfg, sets: Seq<Set<Item>>)
    requires
        1 <= sets.len() <= MAX_STATES,
        sets[0] == closure(g, start_items(g)),
        complete(g, sets),
    ensures
        !too_many_states(g),
{
    if too_many_states(g) {
        let more = choose|more: Seq<Set<Item>>| more_states(g, more);
        let at = Seq::new(more.len(), |k: int| choose|j: int| 0 <= j < sets.len() && (#[trigger] sets[j]) == more[k]);
        assert forall|k: int| 0 <= k < at.len() implies 0 <= #[trigger] at[k] < sets.len() && sets[at[k]]
            == more[k] by {
            assert(is_state(g, more[k]));
            let n = choose|n: nat| reached(g, more[k], n);
            lemma_reached_among(g, sets, more[k], n);
        }
        assert forall|k: int, l: int| 0 <= k < l < at.len() implies #[trigger] at[k] != #[trigger] at[l] by {
            assert(sets[at[k]] == more[k]);
            assert(sets[at[l]] == more[l]);
            assert(more[k] != more[l]);
        }
        lemma_injective_bound(at, sets.len() as int);
    }
}

} // verus!
