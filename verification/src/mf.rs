//! What follows the search: replaying repair sequences, ranking them by how far the parser
//! gets after them, and simplifying those that are kept.

use crate::cpctplus::ParseRepair;
use crate::lex::Lexeme;
use crate::parser::{trees_of, Node, Parser};
use crate::pstack::{pstack_child, pstack_clone, pstack_new, pstack_states};
use crate::replay::{lemma_passes_take, passes, without_trailing_shifts, Config};
use crate::statetable::StIdx;
use cactus::Cactus;
use vstd::prelude::*;

verus! {

/// A copy of `v`.
pub fn copy_vec<T: Copy>(v: &Vec<T>) -> (c: Vec<T>)
    ensures
        c@ == v@,
{
    let mut c: Vec<T> = Vec::new();
    let mut i: usize = 0;
    while i < v.len()
        invariant
            i <= v@.len(),
            c@ == v@.take(i as int),
        decreases v@.len() - i,
    {
        c.push(v[i]);
        assert(v@.take(i + 1) =~= v@.take(i as int).push(v@[i as int]));
        i += 1;
    }
    assert(v@.take(v@.len() as int) =~= v@);
    c
}

/// The shared stack that holds the states of `pstack`.
pub fn lift(pstack: &Vec<StIdx>) -> (c: Cactus<StIdx>)
    ensures
        pstack_states(c) == pstack@,
{
    let mut c = pstack_new();
    let mut i: usize = 0;
    while i < pstack.len()
        invariant
            i <= pstack@.len(),
            pstack_states(c) == pstack@.take(i as int),
        decreases pstack@.len() - i,
    {
        c = pstack_child(&c, pstack[i]);
        assert(pstack@.take(i + 1) =~= pstack@.take(i as int).push(pstack@[i as int]));
        i += 1;
    }
    assert(pstack@.take(pstack@.len() as int) =~= pstack@);
    c
}

/// Replays `repairs` on the parser's own stack and parse trees, from position `laidx`: an
/// insertion runs the simulator on a lexeme of length 0 for the inserted token, a deletion
/// passes one lexeme of the input and leaves no tree, and a shift runs the simulator on the
/// input. The result is the position behind the replayed repairs.
pub fn apply_repairs(
    parser: &Parser,
    laidx: usize,
    pstack: &mut Vec<StIdx>,
    tstack: &mut Vec<Node>,
    repairs: &Vec<ParseRepair>,
) -> (end: usize)
    requires
        laidx + passes(repairs@) < usize::MAX,
    ensures
        ({
            let start = Config { stack: old(pstack)@, laidx: laidx as int };
            &&& final(pstack)@ == parser@.apply(start, repairs@).stack
            &&& end == parser@.apply(start, repairs@).laidx
            &&& trees_of(final(tstack)@) == parser@.apply_trees(start, trees_of(old(tstack)@), repairs@)
        }),
{
    let ghost m = parser@;
    let ghost start = Config { stack: pstack@, laidx: laidx as int };
    let ghost trees0 = trees_of(tstack@);
    let mut cur = laidx;
    let mut i: usize = 0;
    assert(repairs@.take(0) =~= Seq::<ParseRepair>::empty());
    while i < repairs.len()
        invariant
            m == parser@,
            laidx + passes(repairs@) < usize::MAX,
            i <= repairs@.len(),
            cur <= laidx + passes(repairs@.take(i as int)),
            pstack@ == m.apply(start, repairs@.take(i as int)).stack,
            cur == m.apply(start, repairs@.take(i as int)).laidx,
            trees_of(tstack@) == m.apply_trees(start, trees0, repairs@.take(i as int)),
        decreases repairs@.len() - i,
    {
        proof {
            assert(repairs@.take(i + 1).drop_last() =~= repairs@.take(i as int));
            assert(repairs@.take(i + 1).last() == repairs@[i as int]);
            lemma_passes_take(repairs@, i as int);
            lemma_passes_take(repairs@, i + 1);
        }
        match repairs[i] {
            ParseRepair::Insert(tidx) => {
                let next_lexeme = parser.next_lexeme(cur);
                let new_lexeme = Lexeme::new(tidx, next_lexeme.start(), 0);
                parser.lr_upto(Some(new_lexeme), cur, cur + 1, pstack, tstack);
            },
            ParseRepair::Delete(_) => {
                cur += 1;
            },
            ParseRepair::Shift(_) => {
                cur = parser.lr_upto(None, cur, cur + 1, pstack, tstack);
            },
        }
        i += 1;
    }
    assert(repairs@.take(repairs@.len() as int) =~= repairs@);
    cur
}

/// Replays `repairs` on a shared stack, without parse trees, as [`apply_repairs`] does on
/// the parser's own stack.
pub fn apply_repairs_cactus(parser: &Parser, laidx: usize, pstack: Cactus<StIdx>, repairs: &Vec<ParseRepair>) -> (res:
    (usize, Cactus<StIdx>))
    requires
        laidx + passes(repairs@) < usize::MAX,
    ensures
        ({
            let start = Config { stack: pstack_states(pstack), laidx: laidx as int };
            &&& pstack_states(res.1) == parser@.apply(start, repairs@).stack
            &&& res.0 == parser@.apply(start, repairs@).laidx
            &&& res.0 <= laidx + passes(repairs@)
        }),
{
    let ghost m = parser@;
    let ghost start = Config { stack: pstack_states(pstack), laidx: laidx as int };
    let mut stack = pstack_clone(&pstack);
    let mut cur = laidx;
    let mut i: usize = 0;
    assert(repairs@.take(0) =~= Seq::<ParseRepair>::empty());
    while i < repairs.len()
        invariant
            m == parser@,
            laidx + passes(repairs@) < usize::MAX,
            i <= repairs@.len(),
            cur <= laidx + passes(repairs@.take(i as int)),
            pstack_states(stack) == m.apply(start, repairs@.take(i as int)).stack,
            cur == m.apply(start, repairs@.take(i as int)).laidx,
        decreases repairs@.len() - i,
    {
        proof {
            assert(repairs@.take(i + 1).drop_last() =~= repairs@.take(i as int));
            assert(repairs@.take(i + 1).last() == repairs@[i as int]);
            lemma_passes_take(repairs@, i as int);
            lemma_passes_take(repairs@, i + 1);
        }
        match repairs[i] {
            ParseRepair::Insert(tidx) => {
                let next_lexeme = parser.next_lexeme(cur);
                let new_lexeme = Lexeme::new(tidx, next_lexeme.start(), 0);
                let (_, next) = parser.lr_cactus(Some(new_lexeme), cur, cur + 1, stack);
                stack = next;
            },
            ParseRepair::Delete(_) => {
                cur += 1;
            },
            ParseRepair::Shift(_) => {
                let (end, next) = parser.lr_cactus(None, cur, cur + 1, stack);
                stack = next;
                cur = end;
            },
        }
        i += 1;
    }
    assert(repairs@.take(repairs@.len() as int) =~= repairs@);
    (cur, stack)
}

/// How far the parser gets from position `laidx` with stack `pstack` on the input as it is:
/// the position of the first lexeme that it cannot shift.
pub fn parse_on(parser: &Parser, laidx: usize, pstack: Cactus<StIdx>) -> (end: usize)
    requires
        laidx < usize::MAX,
    ensures
        end == parser@.far(Config { stack: pstack_states(pstack), laidx: laidx as int }),
{
    let ghost m = parser@;
    let llen = parser.lexemes_len();
    let mut stack = pstack_clone(&pstack);
    let mut cur = laidx;
    loop
        invariant
            m == parser@,
            llen == m.lexemes.len(),
            llen < usize::MAX,
            cur < usize::MAX,
            m.far(Config { stack: pstack_states(pstack), laidx: laidx as int }) == m.far(
                Config { stack: pstack_states(stack), laidx: cur as int },
            ),
        decreases llen - cur,
    {
        if cur >= llen {
            return cur;
        }
        let (end, next) = parser.lr_cactus(None, cur, cur + 1, stack);
        if end == cur {
            return cur;
        }
        stack = next;
        cur = end;
    }
}

/// The repair sequence `rs` is one of the candidates.
pub open spec fn in_pool(cnds: Seq<Vec<Vec<ParseRepair>>>, rs: Seq<ParseRepair>) -> bool {
    exists|i: int, j: int| 0 <= i < cnds.len() && 0 <= j < cnds[i]@.len() && (#[trigger] cnds[i]@[j])@ == rs
}

/// The repair sequence `rs` is one of those that `out` holds.
pub open spec fn holds(out: Seq<Vec<ParseRepair>>, rs: Seq<ParseRepair>) -> bool {
    exists|k: int| 0 <= k < out.len() && (#[trigger] out[k])@ == rs
}

/// The candidates, one after the other.
fn flatten(in_cnds: &Vec<Vec<Vec<ParseRepair>>>) -> (pool: Vec<Vec<ParseRepair>>)
    ensures
        forall|rs: Seq<ParseRepair>| holds(pool@, rs) <==> in_pool(in_cnds@, rs),
{
    let mut pool: Vec<Vec<ParseRepair>> = Vec::new();
    let mut i: usize = 0;
    while i < in_cnds.len()
        invariant
            i <= in_cnds@.len(),
            forall|rs: Seq<ParseRepair>| holds(pool@, rs) <==> in_pool(in_cnds@.take(i as int), rs),
        decreases in_cnds@.len() - i,
    {
        let seqs = &in_cnds[i];
        let ghost pool0 = pool@;
        let ghost seen0 = in_cnds@.take(i as int);
        let ghost seen1 = in_cnds@.take(i + 1);
        let mut j: usize = 0;
        while j < seqs.len()
            invariant
                j <= seqs@.len(),
                pool@.len() == pool0.len() + j,
                forall|k: int| 0 <= k < pool0.len() ==> #[trigger] pool@[k] == pool0[k],
                forall|l: int| 0 <= l < j ==> (#[trigger] pool@[pool0.len() + l])@ == seqs@[l]@,
            decreases seqs@.len() - j,
        {
            pool.push(copy_vec(&seqs[j]));
            j += 1;
        }
        proof {
            assert forall|rs: Seq<ParseRepair>| holds(pool@, rs) <==> in_pool(seen1, rs) by {
                if holds(pool@, rs) {
                    let k = choose|k: int| 0 <= k < pool@.len() && (#[trigger] pool@[k])@ == rs;
                    if k < pool0.len() {
                        assert(pool0[k]@ == rs);
                        assert(holds(pool0, rs));
                        let (a, b) = choose|a: int, b: int|
                            0 <= a < seen0.len() && 0 <= b < seen0[a]@.len() && (#[trigger] seen0[a]@[b])@ == rs;
                        assert(seen1[a]@[b]@ == rs);
                    } else {
                        assert(pool@[pool0.len() + (k - pool0.len())]@ == seqs@[k - pool0.len()]@);
                        assert(seen1[i as int]@[k - pool0.len()]@ == rs);
                    }
                }
                if in_pool(seen1, rs) {
                    let (a, b) = choose|a: int, b: int|
                        0 <= a < seen1.len() && 0 <= b < seen1[a]@.len() && (#[trigger] seen1[a]@[b])@ == rs;
                    if a < i {
                        assert(seen0[a]@[b]@ == rs);
                        assert(in_pool(seen0, rs));
                        assert(holds(pool0, rs));
                        let k = choose|k: int| 0 <= k < pool0.len() && (#[trigger] pool0[k])@ == rs;
                        assert(pool@[k]@ == rs);
                    } else {
                        assert(pool@[pool0.len() + b]@ == rs);
                    }
                }
            }
        }
        i += 1;
    }
    assert(in_cnds@.take(in_cnds@.len() as int) =~= in_cnds@);
    pool
}

/// Ranks the candidate repair sequences by how far the parser gets after each: every
/// sequence is replayed from position `in_laidx` on a shared stack that holds the states of
/// `in_pstack`, and the parser then goes on with the input as it is until it cannot shift.
/// The sequences after which it gets furthest are returned; the others are dropped.
pub fn rank_cnds(
    parser: &Parser,
    in_laidx: usize,
    in_pstack: &Vec<StIdx>,
    in_cnds: Vec<Vec<Vec<ParseRepair>>>,
) -> (out: Vec<Vec<ParseRepair>>)
    requires
        forall|rs: Seq<ParseRepair>| in_pool(in_cnds@, rs) ==> in_laidx + passes(rs) < usize::MAX,
    ensures
        forall|rs: Seq<ParseRepair>|
            holds(out@, rs) <==> in_pool(in_cnds@, rs) && forall|qs: Seq<ParseRepair>|
                in_pool(in_cnds@, qs) ==> parser@.score(
                    Config { stack: in_pstack@, laidx: in_laidx as int },
                    qs,
                ) <= parser@.score(Config { stack: in_pstack@, laidx: in_laidx as int }, rs),
        (exists|rs: Seq<ParseRepair>| in_pool(in_cnds@, rs)) ==> out@.len() > 0,
{
    let ghost m = parser@;
    let ghost start = Config { stack: in_pstack@, laidx: in_laidx as int };
    let base = lift(in_pstack);
    let pool = flatten(&in_cnds);
    // How far the parser gets after each candidate, and after the best of them.
    let mut scores: Vec<usize> = Vec::new();
    let mut furthest: usize = 0;
    let mut i: usize = 0;
    while i < pool.len()
        invariant
            m == parser@,
            i <= pool@.len(),
            scores@.len() == i,
            pstack_states(base) == in_pstack@,
            start == (Config { stack: in_pstack@, laidx: in_laidx as int }),
            forall|rs: Seq<ParseRepair>| holds(pool@, rs) ==> in_laidx + passes(rs) < usize::MAX,
            forall|k: int| 0 <= k < i ==> #[trigger] scores@[k] == m.score(start, pool@[k]@),
            forall|k: int| 0 <= k < i ==> #[trigger] scores@[k] <= furthest,
            i == 0 ==> furthest == 0,
            i > 0 ==> exists|k: int| 0 <= k < i && #[trigger] scores@[k] == furthest,
        decreases pool@.len() - i,
    {
        assert(holds(pool@, pool@[i as int]@));
        let (laidx, stack) = apply_repairs_cactus(parser, in_laidx, pstack_clone(&base), &pool[i]);
        let far = parse_on(parser, laidx, stack);
        let ghost scores0 = scores@;
        scores.push(far);
        let ghost furthest0 = furthest;
        if far > furthest {
            furthest = far;
        }
        proof {
            if far != furthest {
                assert(i > 0);
                assert(furthest == furthest0);
                let k = choose|k: int| 0 <= k < i && #[trigger] scores0[k] == furthest0;
                assert(scores@[k] == scores0[k]);
            } else {
                assert(scores@[i as int] == furthest);
            }
        }
        i += 1;
    }
    // Remove any candidates except those after which the parser gets furthest.
    let mut out: Vec<Vec<ParseRepair>> = Vec::new();
    let mut j: usize = 0;
    while j < pool.len()
        invariant
            j <= pool@.len(),
            scores@.len() == pool@.len(),
            forall|k: int| 0 <= k < out@.len() ==> holds(pool@, (#[trigger] out@[k])@) && m.score(start, out@[k]@)
                == furthest,
            forall|l: int|
                0 <= l < j && scores@[l] == furthest ==> holds(out@, (#[trigger] pool@[l])@),
            forall|k: int| 0 <= k < pool@.len() ==> #[trigger] scores@[k] == m.score(start, pool@[k]@),
        decreases pool@.len() - j,
    {
        let ghost out0 = out@;
        if scores[j] == furthest {
            out.push(copy_vec(&pool[j]));
        }
        proof {
            assert forall|k: int| 0 <= k < out@.len() implies holds(pool@, (#[trigger] out@[k])@) && m.score(
                start,
                out@[k]@,
            ) == furthest by {
                if k < out0.len() {
                    assert(out@[k] == out0[k]);
                } else {
                    assert(out@[k]@ == pool@[j as int]@);
                }
            }
            assert forall|l: int| 0 <= l < j + 1 && scores@[l] == furthest implies holds(
                out@,
                (#[trigger] pool@[l])@,
            ) by {
                if l < j {
                    let k = choose|k: int| 0 <= k < out0.len() && (#[trigger] out0[k])@ == pool@[l]@;
                    assert(out@[k] == out0[k]);
                } else {
                    assert(out@[out@.len() - 1]@ == pool@[l]@);
                }
            }
        }
        j += 1;
    }
    proof {
        assert forall|rs: Seq<ParseRepair>| holds(out@, rs) <==> in_pool(in_cnds@, rs) && forall|
            qs: Seq<ParseRepair>,
        |
            in_pool(in_cnds@, qs) ==> m.score(start, qs) <= m.score(start, rs) by {
            if holds(out@, rs) {
                let k = choose|k: int| 0 <= k < out@.len() && (#[trigger] out@[k])@ == rs;
                assert(holds(pool@, out@[k]@));
                assert forall|qs: Seq<ParseRepair>| in_pool(in_cnds@, qs) implies m.score(start, qs) <= m.score(
                    start,
                    rs,
                ) by {
                    assert(holds(pool@, qs));
                    let l = choose|l: int| 0 <= l < pool@.len() && (#[trigger] pool@[l])@ == qs;
                    assert(scores@[l] <= furthest);
                }
            }
            if in_pool(in_cnds@, rs) && forall|qs: Seq<ParseRepair>|
                in_pool(in_cnds@, qs) ==> m.score(start, qs) <= m.score(start, rs) {
                assert(holds(pool@, rs));
                let l = choose|l: int| 0 <= l < pool@.len() && (#[trigger] pool@[l])@ == rs;
                let k = choose|k: int| 0 <= k < pool@.len() && #[trigger] scores@[k] == furthest;
                assert(holds(pool@, pool@[k]@));
                assert(in_pool(in_cnds@, pool@[k]@));
                assert(scores@[l] == furthest);
                assert(holds(out@, pool@[l]@));
            }
        }
        if exists|rs: Seq<ParseRepair>| in_pool(in_cnds@, rs) {
            let rs = choose|rs: Seq<ParseRepair>| in_pool(in_cnds@, rs);
            assert(holds(pool@, rs));
            let k = choose|k: int| 0 <= k < pool@.len() && #[trigger] scores@[k] == furthest;
            assert(holds(out@, pool@[k]@));
        }
    }
    out
}

/// Whether two vectors hold the same repairs.
fn same_parse_repairs(a: &Vec<ParseRepair>, b: &Vec<ParseRepair>) -> (same: bool)
    ensures
        same == (a@ == b@),
{
    if a.len() != b.len() {
        return false;
    }
    let mut i: usize = 0;
    while i < a.len()
        invariant
            a@.len() == b@.len(),
            i <= a@.len(),
            forall|k: int| 0 <= k < i ==> a@[k] == b@[k],
        decreases a@.len() - i,
    {
        if a[i] != b[i] {
            return false;
        }
        i += 1;
    }
    assert(a@ =~= b@);
    true
}

/// The repair sequence `rs` is one of the sequences `olds` without the shifts at its end.
pub open spec fn simplified_from(olds: Seq<Vec<ParseRepair>>, rs: Seq<ParseRepair>) -> bool {
    exists|i: int| 0 <= i < olds.len() && without_trailing_shifts((#[trigger] olds[i])@) == rs
}

/// The sequences without the shifts at their end, each once, in the order in which they
/// first come.
fn strip_and_dedup(all_rprs: &mut Vec<Vec<ParseRepair>>)
    ensures
        forall|rs: Seq<ParseRepair>| holds(final(all_rprs)@, rs) <==> simplified_from(old(all_rprs)@, rs),
        forall|k: int, l: int|
            0 <= k < l < final(all_rprs)@.len() ==> (#[trigger] final(all_rprs)@[k])@ != (
            #[trigger] final(all_rprs)@[l])@,
        old(all_rprs)@.len() > 0 ==> final(all_rprs)@.len() > 0 && final(all_rprs)@[0]@
            == without_trailing_shifts(old(all_rprs)@[0]@),
{
    let mut out: Vec<Vec<ParseRepair>> = Vec::new();
    let mut i: usize = 0;
    while i < all_rprs.len()
        invariant
            all_rprs@ == old(all_rprs)@,
            i <= all_rprs@.len(),
            forall|rs: Seq<ParseRepair>| holds(out@, rs) <==> simplified_from(all_rprs@.take(i as int), rs),
            forall|k: int, l: int| 0 <= k < l < out@.len() ==> (#[trigger] out@[k])@ != (#[trigger] out@[l])@,
            i > 0 ==> out@.len() > 0 && out@[0]@ == without_trailing_shifts(all_rprs@[0]@),
        decreases all_rprs@.len() - i,
    {
        // Remove shifts from the end of the repairs.
        let mut rprs = copy_vec(&all_rprs[i]);
        let ghost whole = rprs@;
        while rprs.len() > 0 && is_shift(&rprs[rprs.len() - 1])
            invariant
                without_trailing_shifts(rprs@) == without_trailing_shifts(whole),
            decreases rprs@.len(),
        {
            rprs.pop();
        }
        let ghost out0 = out@;
        let ghost stripped = rprs@;
        let ghost seen0 = all_rprs@.take(i as int);
        let ghost seen1 = all_rprs@.take(i + 1);
        let mut fresh = true;
        let mut k: usize = 0;
        while k < out.len()
            invariant
                k <= out@.len(),
                fresh == forall|l: int| 0 <= l < k ==> (#[trigger] out@[l])@ != rprs@,
            decreases out@.len() - k,
        {
            if same_parse_repairs(&out[k], &rprs) {
                fresh = false;
            }
            k += 1;
        }
        if fresh {
            out.push(rprs);
        }
        proof {
            assert(stripped == without_trailing_shifts(whole));
            assert(seen1[i as int] == all_rprs@[i as int]);
            assert forall|rs: Seq<ParseRepair>| holds(out@, rs) <==> simplified_from(seen1, rs) by {
                if holds(out@, rs) {
                    let k = choose|k: int| 0 <= k < out@.len() && (#[trigger] out@[k])@ == rs;
                    if k < out0.len() {
                        assert(out0[k]@ == rs);
                        assert(holds(out0, rs));
                        let j = choose|j: int|
                            0 <= j < seen0.len() && without_trailing_shifts((#[trigger] seen0[j])@) == rs;
                        assert(seen1[j] == seen0[j]);
                    } else {
                        assert(without_trailing_shifts(seen1[i as int]@) == rs);
                    }
                }
                if simplified_from(seen1, rs) {
                    let j = choose|j: int|
                        0 <= j < seen1.len() && without_trailing_shifts((#[trigger] seen1[j])@) == rs;
                    if j < i {
                        assert(seen0[j] == seen1[j]);
                        assert(simplified_from(seen0, rs));
                        assert(holds(out0, rs));
                        let k = choose|k: int| 0 <= k < out0.len() && (#[trigger] out0[k])@ == rs;
                        assert(out@[k]@ == rs);
                    } else if fresh {
                        assert(out@[out@.len() - 1]@ == rs);
                    } else {
                        let l = choose|l: int| 0 <= l < out0.len() && (#[trigger] out0[l])@ == stripped;
                        assert(out@[l]@ == rs);
                    }
                }
            }
            assert forall|k: int, l: int| 0 <= k < l < out@.len() implies (#[trigger] out@[k])@ != (
            #[trigger] out@[l])@ by {
                assert(out@[k] == out0[k]);
                if l < out0.len() {
                    assert(out@[l] == out0[l]);
                }
            }
            if i > 0 {
                assert(out@[0] == out0[0]);
            } else {
                assert(out0.len() == 0) by {
                    if out0.len() > 0 {
                        assert(holds(out0, out0[0]@));
                    }
                }
                assert(out@[0]@ == stripped);
            }
        }
        i += 1;
    }
    assert(all_rprs@.take(all_rprs@.len() as int) =~= all_rprs@);
    *all_rprs = out;
}

/// Whether a repair is a shift.
fn is_shift(r: &ParseRepair) -> (b: bool)
    ensures
        b == (*r is Shift),
{
    match r {
        ParseRepair::Shift(_) => true,
        _ => false,
    }
}


/// The sequences of `v`, the shorter before the longer, and those of one length in the order
/// in which `v` holds them.
fn order_by_length(v: &Vec<Vec<ParseRepair>>) -> (out: Vec<Vec<ParseRepair>>)
    ensures
        out@.len() == v@.len(),
        forall|rs: Seq<ParseRepair>| holds(out@, rs) <==> holds(v@, rs),
        forall|k: int, l: int| 0 <= k < l < out@.len() ==> (#[trigger] out@[k])@.len() <= (#[trigger] out@[l])@.len(),
        (forall|k: int, l: int| 0 <= k < l < v@.len() ==> (#[trigger] v@[k])@ != (#[trigger] v@[l])@) ==> (forall|
            k: int,
            l: int,
        | 0 <= k < l < out@.len() ==> (#[trigger] out@[k])@ != (#[trigger] out@[l])@),
{
    let mut longest: usize = 0;
    let mut i: usize = 0;
    while i < v.len()
        invariant
            i <= v@.len(),
            forall|k: int| 0 <= k < i ==> (#[trigger] v@[k])@.len() <= longest,
        decreases v@.len() - i,
    {
        if v[i].len() > longest {
            longest = v[i].len();
        }
        i += 1;
    }
    let mut out: Vec<Vec<ParseRepair>> = Vec::new();
    // For each sequence of `out`, the index at which `v` holds it.
    let ghost mut from: Seq<int> = Seq::empty();
    let mut len: usize = 0;
    loop
        invariant_except_break
            forall|k: int| 0 <= k < out@.len() ==> v@[#[trigger] from[k]]@.len() < len,
            forall|j: int|
                0 <= j < v@.len() && (#[trigger] v@[j])@.len() < len ==> exists|k: int|
                    0 <= k < out@.len() && #[trigger] from[k] == j,
        invariant
            len <= longest,
            forall|k: int| 0 <= k < v@.len() ==> (#[trigger] v@[k])@.len() <= longest,
            from.len() == out@.len(),
            forall|k: int| 0 <= k < out@.len() ==> 0 <= #[trigger] from[k] < v@.len() && out@[k]@ == v@[from[k]]@,
            forall|k: int, l: int|
                0 <= k < l < out@.len() ==> v@[#[trigger] from[k]]@.len() < v@[#[trigger] from[l]]@.len() || (v@[from[k]]@.len()
                    == v@[from[l]]@.len() && from[k] < from[l]),
        ensures
            from.len() == out@.len(),
            forall|k: int| 0 <= k < out@.len() ==> 0 <= #[trigger] from[k] < v@.len() && out@[k]@ == v@[from[k]]@,
            forall|k: int, l: int|
                0 <= k < l < out@.len() ==> v@[#[trigger] from[k]]@.len() < v@[#[trigger] from[l]]@.len() || (v@[from[k]]@.len()
                    == v@[from[l]]@.len() && from[k] < from[l]),
            forall|j: int| 0 <= j < v@.len() ==> #[trigger] from.contains(j),
        decreases longest - len,
    {
        let mut j: usize = 0;
        while j < v.len()
            invariant
                j <= v@.len(),
                len <= longest,
                from.len() == out@.len(),
                forall|k: int|
                    0 <= k < out@.len() ==> 0 <= #[trigger] from[k] < v@.len() && out@[k]@ == v@[from[k]]@,
                forall|k: int|
                    0 <= k < out@.len() ==> v@[#[trigger] from[k]]@.len() < len || (v@[from[k]]@.len() == len
                        && from[k] < j),
                forall|k: int, l: int|
                    0 <= k < l < out@.len() ==> v@[#[trigger] from[k]]@.len() < v@[#[trigger] from[l]]@.len() || (
                    v@[from[k]]@.len() == v@[from[l]]@.len() && from[k] < from[l]),
                forall|i: int|
                    0 <= i < v@.len() && ((#[trigger] v@[i])@.len() < len || (v@[i]@.len() == len && i < j))
                        ==> exists|k: int| 0 <= k < out@.len() && #[trigger] from[k] == i,
            decreases v@.len() - j,
        {
            let ghost out0 = out@;
            let ghost from0 = from;
            if v[j].len() == len {
                out.push(copy_vec(&v[j]));
                proof {
                    from = from.push(j as int);
                }
            }
            proof {
                assert forall|i: int|
                    0 <= i < v@.len() && ((#[trigger] v@[i])@.len() < len || (v@[i]@.len() == len && i < j + 1))
                    implies exists|k: int| 0 <= k < out@.len() && #[trigger] from[k] == i by {
                    if v@[i]@.len() < len || (v@[i]@.len() == len && i < j) {
                        let k = choose|k: int| 0 <= k < out0.len() && #[trigger] from0[k] == i;
                        assert(from[k] == i);
                    } else {
                        assert(from[out0.len() as int] == i);
                    }
                }
            }
            j += 1;
        }
        if len == longest {
            proof {
                assert forall|j: int| 0 <= j < v@.len() implies #[trigger] from.contains(j) by {
                    assert(v@[j]@.len() <= longest);
                    let k = choose|k: int| 0 <= k < out@.len() && #[trigger] from[k] == j;
                    assert(from[k] == j);
                }
            }
            break ;
        }
        len += 1;
    }
    proof {
        assert forall|rs: Seq<ParseRepair>| holds(out@, rs) <==> holds(v@, rs) by {
            if holds(out@, rs) {
                let k = choose|k: int| 0 <= k < out@.len() && (#[trigger] out@[k])@ == rs;
                assert(v@[from[k]]@ == rs);
            }
            if holds(v@, rs) {
                let j = choose|j: int| 0 <= j < v@.len() && (#[trigger] v@[j])@ == rs;
                assert(from.contains(j));
                let k = choose|k: int| 0 <= k < from.len() && from[k] == j;
                assert(out@[k]@ == rs);
            }
        }
        assert forall|k: int, l: int| 0 <= k < l < out@.len() implies (#[trigger] out@[k])@.len() <= (
        #[trigger] out@[l])@.len() by {
            assert(v@[from[k]]@.len() < v@[from[l]]@.len() || (v@[from[k]]@.len() == v@[from[l]]@.len()
                && from[k] < from[l]));
        }
        if forall|k: int, l: int| 0 <= k < l < v@.len() ==> (#[trigger] v@[k])@ != (#[trigger] v@[l])@ {
            assert forall|k: int, l: int| 0 <= k < l < out@.len() implies (#[trigger] out@[k])@ != (
            #[trigger] out@[l])@ by {
                assert(v@[from[k]]@.len() < v@[from[l]]@.len() || (v@[from[k]]@.len() == v@[from[l]]@.len()
                    && from[k] < from[l]));
                if v@[from[k]]@.len() == v@[from[l]]@.len() {
                    assert(v@[from[k]]@ != v@[from[l]]@);
                }
            }
        }
        // The indices are different, so there are as many of them as there are sequences.
        assert forall|k: int, l: int| 0 <= k < l < from.len() implies #[trigger] from[k] != #[trigger] from[l] by {
            assert(v@[from[k]]@.len() < v@[from[l]]@.len() || (v@[from[k]]@.len() == v@[from[l]]@.len()
                && from[k] < from[l]));
        }
        lemma_injective_onto(from, v@.len() as int);
    }
    out
}

/// A sequence of different indices below `n` that holds every index below `n` has `n`
/// elements.
proof fn lemma_injective_onto(from: Seq<int>, n: int)
    requires
        0 <= n,
        forall|k: int| 0 <= k < from.len() ==> 0 <= #[trigger] from[k] < n,
        forall|k: int, l: int| 0 <= k < l < from.len() ==> #[trigger] from[k] != #[trigger] from[l],
        forall|j: int| 0 <= j < n ==> #[trigger] from.contains(j),
    ensures
        from.len() == n,
    decreases n,
{
    if n == 0 {
        if from.len() > 0 {
            let x = from[0];
            assert(0 <= x && x < n);
        }
    } else {
        assert(from.contains(n - 1));
        let k = choose|k: int| 0 <= k < from.len() && from[k] == n - 1;
        let rest = from.remove(k);
        assert forall|i: int| 0 <= i < rest.len() implies 0 <= #[trigger] rest[i] < n - 1 by {
            if i < k {
                assert(rest[i] == from[i]);
            } else {
                assert(rest[i] == from[i + 1]);
            }
        }
        assert forall|i: int, l: int| 0 <= i < l < rest.len() implies #[trigger] rest[i] != #[trigger] rest[l] by {
            let fi = if i < k { i } else { i + 1 };
            let fl = if l < k { l } else { l + 1 };
            assert(rest[i] == from[fi]);
            assert(rest[l] == from[fl]);
        }
        assert forall|j: int| 0 <= j < n - 1 implies #[trigger] rest.contains(j) by {
            assert(from.contains(j));
            let f = choose|f: int| 0 <= f < from.len() && from[f] == j;
            if f < k {
                assert(rest[f] == j);
            } else {
                assert(rest[f - 1] == from[f]);
            }
        }
        lemma_injective_onto(rest, n - 1);
    }
}

/// Simplifies the repair sequences: the shifts at the end of each are removed (they show
/// that a sequence leads somewhere, and are no part of the correction); of sequences that are
/// then the same one is kept; and the shorter sequences come before the longer ones.
pub fn simplify_repairs(all_rprs: &mut Vec<Vec<ParseRepair>>)
    ensures
        forall|rs: Seq<ParseRepair>| holds(final(all_rprs)@, rs) <==> simplified_from(old(all_rprs)@, rs),
        forall|k: int, l: int|
            0 <= k < l < final(all_rprs)@.len() ==> (#[trigger] final(all_rprs)@[k])@ != (
            #[trigger] final(all_rprs)@[l])@,
        forall|k: int, l: int|
            0 <= k < l < final(all_rprs)@.len() ==> (#[trigger] final(all_rprs)@[k])@.len() <= (
            #[trigger] final(all_rprs)@[l])@.len(),
        old(all_rprs)@.len() > 0 ==> final(all_rprs)@.len() > 0,
{
    strip_and_dedup(all_rprs);
    let ordered = order_by_length(all_rprs);
    *all_rprs = ordered;
}

} // verus!
