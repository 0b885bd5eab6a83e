//! The search for success nodes: a best-first search over the nodes that repairs lead to, by
//! cost, in which nodes that can be merged are merged, and which returns every success node
//! of the lowest cost at which it finds one.

use crate::cpctplus::{CPCTPlus, PathFNode};
use crate::deadline::{instant_now, instant_reached};
use crate::parser::ParserModel;
use crate::replay::{
    lemma_all_found, lemma_all_yielded, lemma_cheapest, lemma_found_exact, lemma_hopeless, lemma_merge_ok,
    lemma_merge_shape, lemma_merge_stands, lemma_nbr_ok, lemma_reached_merged, lemma_reached_nbr,
    lemma_reached_success, lemma_sound_merged, lemma_sound_nbr, lemma_tidy_merged, lemma_tidy_nbr, merged,
    stood_for, Config, NodeView,
};
use std::time::Instant;
use vstd::prelude::*;

verus! {

/// How many nodes a search expands at most.
pub const EXPAND_LIMIT: u64 = 0xffff_ffff_ffff_ffff;

/// Every node of a bucket has cost `c` and a position within the input.
pub open spec fn bucket_ok(b: Seq<PathFNode>, c: int, llen: int) -> bool {
    forall|k: int| 0 <= k < b.len() ==> (#[trigger] b[k]).cf == c && b[k].laidx <= llen
}

/// Every node is one that the search from `start` can hold.
pub open spec fn all_ok(nodes: Seq<PathFNode>, m: ParserModel, start: Config) -> bool {
    forall|k: int| 0 <= k < nodes.len() ==> (#[trigger] nodes[k])@.ok(m, start)
}

/// The frontier has a bucket for each cost up to some cost, and each bucket holds nodes of
/// its cost.
pub open spec fn frontier_ok(todo: Seq<Vec<PathFNode>>, llen: int) -> bool {
    forall|c: int| 0 <= c < todo.len() ==> bucket_ok((#[trigger] todo[c])@, c, llen)
}

/// Every node of the frontier is one that the search from `start` can hold.
pub open spec fn frontier_all_ok(todo: Seq<Vec<PathFNode>>, m: ParserModel, start: Config) -> bool {
    forall|c: int| 0 <= c < todo.len() ==> all_ok((#[trigger] todo[c])@, m, start)
}

/// Every node stands for a node that the search from `start` reaches.
pub open spec fn all_reached(nodes: Seq<PathFNode>, m: ParserModel, start: NodeView) -> bool {
    forall|k: int| 0 <= k < nodes.len() ==> m.reached_by(start, (#[trigger] nodes[k])@)
}

/// Every node of the frontier stands for a node that the search from `start` reaches.
pub open spec fn frontier_reached(todo: Seq<Vec<PathFNode>>, m: ParserModel, start: NodeView) -> bool {
    forall|c: int| 0 <= c < todo.len() ==> all_reached((#[trigger] todo[c])@, m, start)
}

/// Every node holds nothing but what the search from `base` makes.
pub open spec fn all_sound(nodes: Seq<PathFNode>, m: ParserModel, base: NodeView) -> bool {
    forall|k: int| 0 <= k < nodes.len() ==> m.sound(base, (#[trigger] nodes[k])@)
}

/// Every node of the frontier holds nothing but what the search from `base` makes.
pub open spec fn frontier_sound(todo: Seq<Vec<PathFNode>>, m: ParserModel, base: NodeView) -> bool {
    forall|c: int| 0 <= c < todo.len() ==> all_sound((#[trigger] todo[c])@, m, base)
}

/// The costs of every node are as they are in a search from `base` in which insertions and
/// deletions cost something.
pub open spec fn all_tidy(nodes: Seq<PathFNode>, base: NodeView) -> bool {
    forall|k: int| 0 <= k < nodes.len() ==> (#[trigger] nodes[k])@.tidy(base)
}

/// The costs of every node of the frontier are as they are in a search from `base` in which
/// insertions and deletions cost something.
pub open spec fn frontier_tidy(todo: Seq<Vec<PathFNode>>, base: NodeView) -> bool {
    forall|c: int| 0 <= c < todo.len() ==> all_tidy((#[trigger] todo[c])@, base)
}

/// A node of the bucket stands for `nv`.
pub open spec fn bucket_stands_for(strict: bool, b: Seq<PathFNode>, nv: NodeView) -> bool {
    exists|k: int| 0 <= k < b.len() && (#[trigger] b[k])@.stands_for(strict, nv)
}

/// A node of the frontier stands for `nv`.
pub open spec fn waits_for(strict: bool, todo: Seq<Vec<PathFNode>>, nv: NodeView) -> bool {
    exists|c: int| 0 <= c < todo.len() && bucket_stands_for(strict, (#[trigger] todo[c])@, nv)
}

/// What putting `nbr` into a bucket makes of the bucket: `nbr` is merged into the first
/// node of the bucket that it can be merged with, and added behind the others if there is
/// none.
pub open spec fn placed(before: Seq<PathFNode>, nbr: PathFNode, after: Seq<PathFNode>) -> bool {
    if exists|k: int| 0 <= k < before.len() && (#[trigger] before[k])@.compatible(nbr@) {
        let k = choose|k: int|
            0 <= k < before.len() && (#[trigger] before[k])@.compatible(nbr@) && forall|j: int|
                0 <= j < k ==> !(#[trigger] before[j])@.compatible(nbr@);
        &&& 0 <= k < before.len()
        &&& before[k]@.compatible(nbr@)
        &&& after.len() == before.len()
        &&& forall|j: int| 0 <= j < before.len() && j != k ==> #[trigger] after[j] == before[j]
        &&& after[k]@.stack == before[k]@.stack
        &&& after[k].laidx == before[k].laidx
        &&& after[k].cf == before[k].cf
        &&& merged(before[k]@.entries, nbr@.entries, after[k]@.entries)
    } else {
        after == before.push(nbr)
    }
}

/// Puts `nbr` into the bucket of its cost: it is merged into the first node of the bucket
/// that it can be merged with, and added to the bucket if there is none.
pub fn place(rec: &CPCTPlus, bucket: &mut Vec<PathFNode>, nbr: PathFNode)
    ensures
        placed(old(bucket)@, nbr, final(bucket)@),
{
    let mut k: usize = 0;
    while k < bucket.len()
        invariant
            k <= bucket@.len(),
            bucket@ == old(bucket)@,
            forall|j: int| 0 <= j < k ==> !(#[trigger] bucket@[j])@.compatible(nbr@),
        decreases bucket@.len() - k,
    {
        if bucket[k] == nbr {
            rec.merge(&mut bucket[k], nbr);
            return ;
        }
        k += 1;
    }
    bucket.push(nbr);
}

/// What holds of a bucket after a node of its cost was put into it: its nodes still cost
/// the same; if the search could hold them and the node, it can hold them now; and they
/// stand for the node and for whatever they stood for before.
pub proof fn lemma_placed(
    m: ParserModel,
    strict: bool,
    base: NodeView,
    before: Seq<PathFNode>,
    nbr: PathFNode,
    after: Seq<PathFNode>,
    c: int,
    llen: int,
)
    requires
        bucket_ok(before, c, llen),
        nbr.cf == c,
        nbr.laidx <= llen,
        placed(before, nbr, after),
        strict ==> all_tidy(before, base) && nbr@.tidy(base),
    ensures
        bucket_ok(after, c, llen),
        strict ==> all_tidy(after, base),
        forall|start: Config| all_ok(before, m, start) && nbr@.ok(m, start) ==> #[trigger] all_ok(after, m, start),
        forall|from: NodeView|
            all_reached(before, m, from) && m.reached_by(from, nbr@) ==> #[trigger] all_reached(after, m, from),
        forall|from: NodeView|
            all_sound(before, m, from) && m.sound(from, nbr@) ==> #[trigger] all_sound(after, m, from),
        bucket_stands_for(strict, after, nbr@),
        forall|nv: NodeView| bucket_stands_for(strict, before, nv) ==> #[trigger] bucket_stands_for(strict, after, nv),
        after.len() >= before.len(),
{
    if exists|k: int| 0 <= k < before.len() && (#[trigger] before[k])@.compatible(nbr@) {
        let k = choose|k: int|
            0 <= k < before.len() && (#[trigger] before[k])@.compatible(nbr@) && forall|j: int|
                0 <= j < k ==> !(#[trigger] before[j])@.compatible(nbr@);
        lemma_merge_shape(before[k]@, nbr@, after[k]@);
        if strict {
            lemma_tidy_merged(base, before[k]@, nbr@, after[k]@);
            assert forall|j: int| 0 <= j < after.len() implies (#[trigger] after[j])@.tidy(base) by {
                if j != k {
                    assert(after[j] == before[j]);
                }
            }
        }
        lemma_merge_stands(strict, before[k]@, nbr@, after[k]@);
        assert forall|j: int| 0 <= j < after.len() implies (#[trigger] after[j]).cf == c && after[j].laidx
            <= llen by {
            if j != k {
                assert(after[j] == before[j]);
            }
        }
        assert forall|start: Config| all_ok(before, m, start) && nbr@.ok(m, start) implies #[trigger] all_ok(
            after,
            m,
            start,
        ) by {
            assert forall|j: int| 0 <= j < after.len() implies (#[trigger] after[j])@.ok(m, start) by {
                if j != k {
                    assert(after[j] == before[j]);
                } else {
                    lemma_merge_ok(m, start, before[k]@, nbr@, after[k]@);
                }
            }
        }
        assert forall|from: NodeView| all_reached(before, m, from) && m.reached_by(from, nbr@) implies #[trigger] all_reached(
            after,
            m,
            from,
        ) by {
            assert forall|j: int| 0 <= j < after.len() implies m.reached_by(from, (#[trigger] after[j])@) by {
                if j != k {
                    assert(after[j] == before[j]);
                } else {
                    lemma_reached_merged(m, from, before[k]@, nbr@, after[k]@);
                }
            }
        }
        assert forall|from: NodeView| all_sound(before, m, from) && m.sound(from, nbr@) implies #[trigger] all_sound(
            after,
            m,
            from,
        ) by {
            assert forall|j: int| 0 <= j < after.len() implies m.sound(from, (#[trigger] after[j])@) by {
                if j != k {
                    assert(after[j] == before[j]);
                } else {
                    lemma_sound_merged(m, from, before[k]@, nbr@, after[k]@);
                }
            }
        }
        assert(after[k]@.stands_for(strict, nbr@));
        assert forall|nv: NodeView| bucket_stands_for(strict, before, nv) implies #[trigger] bucket_stands_for(strict, 
            after,
            nv,
        ) by {
            let j = choose|j: int| 0 <= j < before.len() && (#[trigger] before[j])@.stands_for(strict, nv);
            if j != k {
                assert(after[j] == before[j]);
            }
            assert(after[j]@.stands_for(strict, nv));
        }
    } else {
        assert forall|start: Config| all_ok(before, m, start) && nbr@.ok(m, start) implies #[trigger] all_ok(
            after,
            m,
            start,
        ) by {
            assert forall|j: int| 0 <= j < after.len() implies (#[trigger] after[j])@.ok(m, start) by {
                if j < before.len() {
                    assert(after[j] == before[j]);
                }
            }
        }
        assert forall|from: NodeView| all_reached(before, m, from) && m.reached_by(from, nbr@) implies #[trigger] all_reached(
            after,
            m,
            from,
        ) by {
            assert forall|j: int| 0 <= j < after.len() implies m.reached_by(from, (#[trigger] after[j])@) by {
                if j < before.len() {
                    assert(after[j] == before[j]);
                }
            }
        }
        assert forall|from: NodeView| all_sound(before, m, from) && m.sound(from, nbr@) implies #[trigger] all_sound(
            after,
            m,
            from,
        ) by {
            assert forall|j: int| 0 <= j < after.len() implies m.sound(from, (#[trigger] after[j])@) by {
                if j < before.len() {
                    assert(after[j] == before[j]);
                }
            }
        }
        if strict {
            assert forall|j: int| 0 <= j < after.len() implies (#[trigger] after[j])@.tidy(base) by {
                if j < before.len() {
                    assert(after[j] == before[j]);
                }
            }
        }
        assert(after[before.len() as int]@.stands_for(strict, nbr@));
        assert forall|nv: NodeView| bucket_stands_for(strict, before, nv) implies #[trigger] bucket_stands_for(strict, 
            after,
            nv,
        ) by {
            let j = choose|j: int| 0 <= j < before.len() && (#[trigger] before[j])@.stands_for(strict, nv);
            assert(after[j] == before[j]);
        }
    }
}

/// The neighbour at index `j` is one to put into the frontier: with `only` set, its cost is
/// `only`.
pub open spec fn wanted(next: Seq<(u16, PathFNode)>, j: int, only: Option<u16>) -> bool {
    only matches Some(c) ==> next[j].0 == c
}

/// With `strict` set, the costs of the nodes of the frontier and of the nodes `next` are as
/// they are in a search from `base` in which insertions and deletions cost something.
pub open spec fn next_tidy(strict: bool, base: NodeView, todo: Seq<Vec<PathFNode>>, next: Seq<(u16, PathFNode)>) -> bool {
    strict ==> frontier_tidy(todo, base) && forall|k: int| 0 <= k < next.len() ==> (#[trigger] next[k]).1@.tidy(base)
}

/// The search from `start` can hold the nodes of the frontier and the nodes `next`.
pub open spec fn next_ok(m: ParserModel, start: Config, todo: Seq<Vec<PathFNode>>, next: Seq<(u16, PathFNode)>) -> bool {
    frontier_all_ok(todo, m, start) && forall|k: int| 0 <= k < next.len() ==> (#[trigger] next[k]).1@.ok(m, start)
}

/// The nodes of the frontier and the nodes `next` stand for nodes that the search from `base`
/// reaches.
pub open spec fn next_reached(m: ParserModel, base: NodeView, todo: Seq<Vec<PathFNode>>, next: Seq<(u16, PathFNode)>) -> bool {
    frontier_reached(todo, m, base) && forall|k: int| 0 <= k < next.len() ==> m.reached_by(base, (#[trigger] next[k]).1@)
}

/// The nodes of the frontier and the nodes `next` hold nothing but what the search from
/// `base` makes.
pub open spec fn next_sound(m: ParserModel, base: NodeView, todo: Seq<Vec<PathFNode>>, next: Seq<(u16, PathFNode)>) -> bool {
    frontier_sound(todo, m, base) && forall|k: int| 0 <= k < next.len() ==> m.sound(base, (#[trigger] next[k]).1@)
}

/// What stays of the frontier `old` in the frontier `cur`, into which the first `done` of the
/// nodes `next` were put, where the costs are as [`next_tidy`] says: the costs are so in
/// `cur`, and a node of `cur` stands for what a node of `old` stood for, and for each of the
/// nodes put.
pub open spec fn kept_tidy(
    strict: bool,
    base: NodeView,
    old: Seq<Vec<PathFNode>>,
    next: Seq<(u16, PathFNode)>,
    only: Option<u16>,
    done: int,
    cur: Seq<Vec<PathFNode>>,
) -> bool {
    next_tidy(strict, base, old, next) ==> {
        &&& next_tidy(strict, base, cur, next)
        &&& forall|nv: NodeView| waits_for(strict, old, nv) ==> #[trigger] waits_for(strict, cur, nv)
        &&& forall|j: int| 0 <= j < done && wanted(next, j, only) ==> waits_for(strict, cur, (#[trigger] next[j]).1@)
    }
}

/// Puts the neighbours `next` of a node into the frontier, in their order. With `only` set,
/// neighbours of another cost than `only` are dropped.
fn place_all(rec: &CPCTPlus, todo: &mut Vec<Vec<PathFNode>>, next: Vec<(u16, PathFNode)>, only: Option<u16>)
    requires
        frontier_ok(old(todo)@, rec.model().lexemes.len() as int),
        forall|k: int|
            0 <= k < next@.len() ==> (#[trigger] next@[k]).0 == next@[k].1.cf && next@[k].1.laidx
                <= rec.model().lexemes.len(),
    ensures
        final(todo)@.len() >= old(todo)@.len(),
        frontier_ok(final(todo)@, rec.model().lexemes.len() as int),
        forall|start: Config| #[trigger]
            next_ok(rec.model(), start, old(todo)@, next@) ==> frontier_all_ok(final(todo)@, rec.model(), start),
        forall|base: NodeView| #[trigger]
            next_reached(rec.model(), base, old(todo)@, next@) ==> frontier_reached(final(todo)@, rec.model(), base),
        forall|base: NodeView| #[trigger]
            next_sound(rec.model(), base, old(todo)@, next@) ==> frontier_sound(final(todo)@, rec.model(), base),
        forall|strict: bool, base: NodeView| #[trigger]
            kept_tidy(strict, base, old(todo)@, next@, only, next@.len() as int, final(todo)@),
        forall|d: int|
            0 <= d < old(todo)@.len() && (forall|j: int| 0 <= j < next@.len() ==> (#[trigger] next@[j]).0 != d)
                ==> (#[trigger] final(todo)@[d])@ == old(todo)@[d]@,
{
    let ghost m = rec.model();
    let ghost llen = m.lexemes.len() as int;
    let ghost all = next@;
    let mut next = next;
    let ghost mut done: int = 0;
    while next.len() > 0
        invariant
            m == rec.model(),
            llen == m.lexemes.len(),
            0 <= done <= all.len(),
            next@ == all.skip(done),
            todo@.len() >= old(todo)@.len(),
            frontier_ok(todo@, llen),
            forall|k: int| 0 <= k < all.len() ==> (#[trigger] all[k]).0 == all[k].1.cf && all[k].1.laidx <= llen,
            forall|start: Config| #[trigger] next_ok(m, start, old(todo)@, all) ==> frontier_all_ok(todo@, m, start),
            forall|base: NodeView| #[trigger]
                next_reached(m, base, old(todo)@, all) ==> frontier_reached(todo@, m, base),
            forall|base: NodeView| #[trigger] next_sound(m, base, old(todo)@, all) ==> frontier_sound(todo@, m, base),
            forall|strict: bool, base: NodeView| #[trigger] kept_tidy(strict, base, old(todo)@, all, only, done, todo@),
            forall|d: int|
                0 <= d < old(todo)@.len() && (forall|j: int| 0 <= j < done ==> (#[trigger] all[j]).0 != d) ==> (
                #[trigger] todo@[d])@ == old(todo)@[d]@,
        decreases next@.len(),
    {
        let (nbr_cost, nbr) = next.remove(0);
        proof {
            assert((nbr_cost, nbr) == all[done]);
            assert(next@ =~= all.skip(done + 1));
        }
        let is_wanted = match only {
            Some(c) => nbr_cost == c,
            None => true,
        };
        let ghost todo0 = todo@;
        if is_wanted {
            let off = nbr_cost as usize;
            while todo.len() <= off
                invariant
                    todo@.len() >= todo0.len(),
                    forall|c: int| 0 <= c < todo0.len() ==> #[trigger] todo@[c] == todo0[c],
                    forall|c: int| todo0.len() <= c < todo@.len() ==> (#[trigger] todo@[c])@.len() == 0,
                decreases off + 1 - todo@.len(),
            {
                todo.push(Vec::new());
            }
            let ghost todo1 = todo@;
            let ghost nbr_v = nbr;
            proof {
                assert forall|c: int| 0 <= c < todo1.len() implies bucket_ok((#[trigger] todo1[c])@, c, llen) by {
                    if c < todo0.len() {
                        assert(todo1[c] == todo0[c]);
                    }
                }
            }
            place(rec, &mut todo[off], nbr);
            proof {
                let before = todo1[off as int]@;
                let after = todo@[off as int]@;
                lemma_placed(m, false, nbr_v@, before, nbr_v, after, off as int, llen);
                assert forall|c: int| 0 <= c < todo@.len() implies bucket_ok((#[trigger] todo@[c])@, c, llen) by {
                    if c != off {
                        assert(todo@[c] == todo1[c]);
                    }
                }
                assert forall|start: Config| #[trigger] next_ok(m, start, old(todo)@, all) implies frontier_all_ok(
                    todo@,
                    m,
                    start,
                ) by {
                    assert(all[done].1@.ok(m, start));
                    assert(frontier_all_ok(todo0, m, start));
                    assert forall|c: int| 0 <= c < todo@.len() implies all_ok((#[trigger] todo@[c])@, m, start) by {
                        if c < todo0.len() {
                            assert(todo1[c] == todo0[c]);
                            assert(all_ok(todo0[c]@, m, start));
                        }
                        if c != off {
                            assert(todo@[c] == todo1[c]);
                        }
                    }
                }
                assert forall|base: NodeView| #[trigger] next_reached(m, base, old(todo)@, all) implies frontier_reached(
                    todo@,
                    m,
                    base,
                ) by {
                    assert(m.reached_by(base, all[done].1@));
                    assert(frontier_reached(todo0, m, base));
                    assert forall|c: int| 0 <= c < todo@.len() implies all_reached((#[trigger] todo@[c])@, m, base) by {
                        if c < todo0.len() {
                            assert(todo1[c] == todo0[c]);
                            assert(all_reached(todo0[c]@, m, base));
                        }
                        if c != off {
                            assert(todo@[c] == todo1[c]);
                        }
                    }
                }
                assert forall|base: NodeView| #[trigger] next_sound(m, base, old(todo)@, all) implies frontier_sound(
                    todo@,
                    m,
                    base,
                ) by {
                    assert(m.sound(base, all[done].1@));
                    assert(frontier_sound(todo0, m, base));
                    assert forall|c: int| 0 <= c < todo@.len() implies all_sound((#[trigger] todo@[c])@, m, base) by {
                        if c < todo0.len() {
                            assert(todo1[c] == todo0[c]);
                            assert(all_sound(todo0[c]@, m, base));
                        }
                        if c != off {
                            assert(todo@[c] == todo1[c]);
                        }
                    }
                }
                assert forall|strict: bool, base: NodeView| #[trigger]
                    kept_tidy(strict, base, old(todo)@, all, only, done + 1, todo@) by {
                    assert(kept_tidy(strict, base, old(todo)@, all, only, done, todo0));
                    if next_tidy(strict, base, old(todo)@, all) {
                        if strict {
                            assert(all[done].1@.tidy(base));
                            assert forall|c: int| 0 <= c < todo1.len() implies all_tidy((#[trigger] todo1[c])@, base) by {
                                if c < todo0.len() {
                                    assert(todo1[c] == todo0[c]);
                                    assert(all_tidy(todo0[c]@, base));
                                }
                            }
                        }
                        lemma_placed(m, strict, base, before, nbr_v, after, off as int, llen);
                        if strict {
                            assert forall|c: int| 0 <= c < todo@.len() implies all_tidy((#[trigger] todo@[c])@, base) by {
                                if c != off {
                                    assert(todo@[c] == todo1[c]);
                                    assert(all_tidy(todo1[c]@, base));
                                }
                            }
                        }
                        assert forall|nv: NodeView| waits_for(strict, todo0, nv) implies #[trigger] waits_for(
                            strict,
                            todo@,
                            nv,
                        ) by {
                            let c = choose|c: int|
                                0 <= c < todo0.len() && bucket_stands_for(strict, (#[trigger] todo0[c])@, nv);
                            assert(todo1[c] == todo0[c]);
                            if c != off {
                                assert(todo@[c] == todo1[c]);
                            }
                            assert(bucket_stands_for(strict, todo@[c]@, nv));
                        }
                        assert(waits_for(strict, todo@, nbr_v@)) by {
                            assert(bucket_stands_for(strict, todo@[off as int]@, nbr_v@));
                        }
                        assert forall|nv: NodeView| waits_for(strict, old(todo)@, nv) implies #[trigger] waits_for(
                            strict,
                            todo@,
                            nv,
                        ) by {
                            assert(waits_for(strict, todo0, nv));
                        }
                        assert forall|j: int| 0 <= j < done + 1 && wanted(all, j, only) implies waits_for(
                            strict,
                            todo@,
                            (#[trigger] all[j]).1@,
                        ) by {
                            if j < done {
                                assert(waits_for(strict, todo0, all[j].1@));
                            }
                        }
                    }
                }
                assert forall|d: int|
                    0 <= d < old(todo)@.len() && (forall|j: int| 0 <= j < done + 1 ==> (#[trigger] all[j]).0 != d)
                    implies (#[trigger] todo@[d])@ == old(todo)@[d]@ by {
                    assert(all[done].0 != d);
                    assert(todo1[d] == todo0[d]);
                    assert(todo@[d] == todo1[d]);
                }
            }
        } else {
            proof {
                assert forall|strict: bool, base: NodeView| #[trigger]
                    kept_tidy(strict, base, old(todo)@, all, only, done + 1, todo@) by {
                    assert(kept_tidy(strict, base, old(todo)@, all, only, done, todo0));
                    assert(!wanted(all, done, only));
                }
            }
        }
        proof {
            done = done + 1;
        }
    }
}

/// With `strict` set, insertions and deletions cost something, and the costs of the nodes of
/// the frontier and of the node `n` are as they are in a search from `base`.
pub open spec fn node_tidy(m: ParserModel, strict: bool, base: NodeView, todo: Seq<Vec<PathFNode>>, n: NodeView) -> bool {
    strict ==> m.repairs_cost() && frontier_tidy(todo, base) && n.tidy(base)
}

/// What holds after a step of the search from `base`, in the sense that `strict` gives to
/// [`NodeView::stands_for`], where the costs were as [`node_tidy`] says: they are so after
/// the step; a node of the frontier stands for every node that a node of the frontier stood
/// for before; and a node of the frontier stands for every neighbour of `n` that was to be
/// put into it.
pub open spec fn stepped(
    m: ParserModel,
    strict: bool,
    base: NodeView,
    old: Seq<Vec<PathFNode>>,
    n: NodeView,
    only: Option<u16>,
    cur: Seq<Vec<PathFNode>>,
) -> bool {
    node_tidy(m, strict, base, old, n) ==> {
        &&& strict ==> frontier_tidy(cur, base)
        &&& forall|nv: NodeView| waits_for(strict, old, nv) ==> #[trigger] waits_for(strict, cur, nv)
        &&& forall|nv: NodeView|
            n.is_nbr(m, only is None, nv) && (only matches Some(c) ==> nv.cf == c) ==> #[trigger] waits_for(
                strict,
                cur,
                nv,
            )
    }
}

/// One step of the search: the node `n`, which was taken from the frontier `todo` and is no
/// success node, is expanded, unless the deadline has passed. `expired` says whether it has.
///
/// If it has, nothing is done, and the result is `false`. Else the neighbours of `n` are put
/// into the frontier, each into the bucket of its cost, merged into the first node of the
/// bucket that it can be merged with; the result is `true`. With `only` unset, these are all
/// neighbours of `n`; with `only` set, they are those of cost `only` among the neighbours
/// that a run of the simulator on the input leads to.
///
/// After the step a node of the frontier stands for every such neighbour, and for every node
/// that a node of the frontier stood for before; and what held of every node of the frontier
/// and of `n` holds of every node of the frontier.
pub fn expand(rec: &CPCTPlus, todo: &mut Vec<Vec<PathFNode>>, n: &PathFNode, only: Option<u16>, expired: bool) -> (went_on:
    bool)
    requires
        n.laidx <= rec.model().lexemes.len(),
        frontier_ok(old(todo)@, rec.model().lexemes.len() as int),
    ensures
        went_on == !expired,
        expired ==> final(todo)@ == old(todo)@,
        !expired ==> final(todo)@.len() >= old(todo)@.len(),
        !expired ==> frontier_ok(final(todo)@, rec.model().lexemes.len() as int),
        !expired ==> forall|d: int|
            0 <= d < old(todo)@.len() && d < n.cf ==> (#[trigger] final(todo)@[d])@ == old(todo)@[d]@,
        !expired ==> forall|start: Config|
            frontier_all_ok(old(todo)@, rec.model(), start) && n@.ok(rec.model(), start) ==> #[trigger] frontier_all_ok(
                final(todo)@,
                rec.model(),
                start,
            ),
        !expired ==> forall|base: NodeView|
            frontier_reached(old(todo)@, rec.model(), base) && rec.model().reached_by(base, n@)
                ==> #[trigger] frontier_reached(final(todo)@, rec.model(), base),
        !expired && !n@.success(rec.model()) ==> forall|base: NodeView|
            frontier_sound(old(todo)@, rec.model(), base) && rec.model().sound(base, n@) ==> #[trigger] frontier_sound(
                final(todo)@,
                rec.model(),
                base,
            ),
        !expired ==> forall|strict: bool, base: NodeView| #[trigger]
            stepped(rec.model(), strict, base, old(todo)@, n@, only, final(todo)@),
{
    if expired {
        return false;
    }
    let ghost m = rec.model();
    let ghost todo0 = todo@;
    let explore_all = only.is_none();
    let mut next: Vec<(u16, PathFNode)> = Vec::new();
    rec.neighbours(explore_all, n, &mut next);
    let ghost nbrs = next@;
    place_all(rec, todo, next, only);
    proof {
        assert forall|start: Config|
            frontier_all_ok(todo0, m, start) && n@.ok(m, start) implies #[trigger] frontier_all_ok(todo@, m, start) by {
            assert forall|k: int| 0 <= k < nbrs.len() implies (#[trigger] nbrs[k]).1@.ok(m, start) by {
                lemma_nbr_ok(m, start, n@, explore_all, nbrs[k].1@);
            }
            assert(next_ok(m, start, todo0, nbrs));
        }
        assert forall|base: NodeView|
            frontier_reached(todo0, m, base) && m.reached_by(base, n@) implies #[trigger] frontier_reached(
            todo@,
            m,
            base,
        ) by {
            assert forall|k: int| 0 <= k < nbrs.len() implies m.reached_by(base, (#[trigger] nbrs[k]).1@) by {
                lemma_reached_nbr(m, base, n@, explore_all, nbrs[k].1@);
            }
            assert(next_reached(m, base, todo0, nbrs));
        }
        if !n@.success(m) {
            assert forall|base: NodeView|
                frontier_sound(todo0, m, base) && m.sound(base, n@) implies #[trigger] frontier_sound(
                todo@,
                m,
                base,
            ) by {
                assert forall|k: int| 0 <= k < nbrs.len() implies m.sound(base, (#[trigger] nbrs[k]).1@) by {
                    lemma_sound_nbr(m, base, n@, explore_all, nbrs[k].1@);
                }
                assert(next_sound(m, base, todo0, nbrs));
            }
        }
        assert forall|strict: bool, base: NodeView| #[trigger] stepped(m, strict, base, todo0, n@, only, todo@) by {
            if node_tidy(m, strict, base, todo0, n@) {
                if strict {
                    assert forall|k: int| 0 <= k < nbrs.len() implies (#[trigger] nbrs[k]).1@.tidy(base) by {
                        lemma_tidy_nbr(m, base, n@, explore_all, nbrs[k].1@);
                    }
                }
                assert(next_tidy(strict, base, todo0, nbrs));
                assert(kept_tidy(strict, base, todo0, nbrs, only, nbrs.len() as int, todo@));
                assert forall|nv: NodeView|
                    n@.is_nbr(m, only is None, nv) && (only matches Some(c) ==> nv.cf == c) implies #[trigger] waits_for(
                    strict,
                    todo@,
                    nv,
                ) by {
                    let k = choose|k: int| 0 <= k < nbrs.len() && (#[trigger] nbrs[k]).1@ == nv;
                    assert(wanted(nbrs, k, only));
                    assert(waits_for(strict, todo@, nbrs[k].1@));
                }
            }
        }
        assert forall|d: int| 0 <= d < todo0.len() && d < n.cf implies (#[trigger] todo@[d])@ == todo0[d]@ by {
            assert forall|j: int| 0 <= j < nbrs.len() implies (#[trigger] nbrs[j]).0 != d by {
                assert(nbrs[j].1.cf >= n.cf);
            }
        }
    }
    true
}

/// Whether the moment `finish_by` has come.
fn deadline_passed(finish_by: &Instant) -> bool {
    let now = instant_now();
    instant_reached(&now, finish_by)
}

/// The nodes that wait in the frontier.
pub open spec fn waiting(todo: Seq<Vec<PathFNode>>) -> Set<NodeView> {
    Set::new(
        |nv: NodeView|
            exists|c: int, k: int| 0 <= c < todo.len() && 0 <= k < todo[c]@.len() && (#[trigger] todo[c]@[k])@ == nv,
    )
}

/// What the frontier is without the node that was taken from the end of bucket `c`: a node
/// of it, or the node taken, stands for whatever a node stood for before.
proof fn lemma_taken(strict: bool, before: Seq<Vec<PathFNode>>, after: Seq<Vec<PathFNode>>, c: int, n: PathFNode)
    requires
        0 <= c < before.len(),
        after.len() == before.len(),
        before[c]@.len() > 0,
        n == before[c]@.last(),
        after[c]@ == before[c]@.drop_last(),
        forall|d: int| 0 <= d < before.len() && d != c ==> #[trigger] after[d] == before[d],
    ensures
        forall|nv: NodeView| waits_for(strict, before, nv) ==> #[trigger] waits_for(strict, after, nv) || n@.stands_for(strict, nv),
{
    assert forall|nv: NodeView| waits_for(strict, before, nv) implies #[trigger] waits_for(strict, after, nv) || n@.stands_for(strict, 
        nv,
    ) by {
        let d = choose|d: int| 0 <= d < before.len() && bucket_stands_for(strict, (#[trigger] before[d])@, nv);
        let k = choose|k: int| 0 <= k < before[d]@.len() && (#[trigger] before[d]@[k])@.stands_for(strict, nv);
        if d != c {
            assert(after[d] == before[d]);
            assert(bucket_stands_for(strict, after[d]@, nv));
        } else if k < before[c]@.len() - 1 {
            assert(after[c]@[k] == before[c]@[k]);
            assert(bucket_stands_for(strict, after[c]@, nv));
        }
    }
}

/// The frontier holds the node `start` in bucket `first`, and nothing else.
pub open spec fn only_start(todo: Seq<Vec<PathFNode>>, first: int, start: NodeView) -> bool {
    &&& todo.len() == first + 1
    &&& todo[first]@.len() == 1
    &&& todo[first]@[0]@ == start
    &&& forall|d: int| 0 <= d < first ==> (#[trigger] todo[d])@.len() == 0
}

/// The nodes of a vector, as a set.
pub open spec fn node_views(nodes: Seq<PathFNode>) -> Set<NodeView> {
    Set::new(|nv: NodeView| exists|i: int| 0 <= i < nodes.len() && (#[trigger] nodes[i])@ == nv)
}

/// What holds of the nodes `nodes` that a search from `start` returns, and of what it says
/// of itself.
///
/// Whatever the clock shows: the nodes are success nodes of one cost; the search reaches a
/// success node of that cost, and none that costs less; the nodes hold nothing but what the
/// search makes; if the search can hold `start` for some start, it can hold the nodes; and if
/// `start` is a success node, it is the first of the nodes.
///
/// Where the search came to its end: without a node, the search reaches no success node; with
/// nodes, and where insertions and deletions cost something, one of them stands for every
/// success node of their cost that the search reaches first, and the nodes yield exactly the
/// repair sequences that lead to such a node.
pub open spec fn searched(m: ParserModel, start: NodeView, nodes: Seq<PathFNode>, complete: bool) -> bool {
    &&& forall|i: int| 0 <= i < nodes.len() ==> (#[trigger] nodes[i])@.success(m) && nodes[i].laidx <= m.lexemes.len()
    &&& forall|i: int, j: int|
        0 <= i < nodes.len() && 0 <= j < nodes.len() ==> (#[trigger] nodes[i]).cf == (#[trigger] nodes[j]).cf
    &&& nodes.len() > 0 ==> m.cheapest(start, nodes[0].cf as int)
    &&& forall|from: Config| #[trigger] start.ok(m, from) ==> all_ok(nodes, m, from)
    &&& start.success(m) ==> nodes.len() > 0 && nodes[0]@ == start
    &&& nodes.len() > 0 ==> m.attained(start, nodes[0].cf as int)
    &&& all_sound(nodes, m, start)
    &&& complete && nodes.len() == 0 ==> m.hopeless(start)
    &&& complete && nodes.len() > 0 && m.repairs_cost() ==> m.all_found(start, nodes[0].cf as int, node_views(nodes))
        && m.all_yielded(start, nodes[0].cf as int, node_views(nodes)) && m.found_exact(
        start,
        nodes[0].cf as int,
        node_views(nodes),
    )
}

/// What a search has found.
pub struct Found {
    /// The success nodes.
    pub nodes: Vec<PathFNode>,
    /// Whether the search came to its end: neither the deadline nor the limit on the number
    /// of nodes has cut it short.
    pub complete: bool,
}

/// Searches from `start_node` for success nodes. Nodes are taken from the frontier in the
/// order of their cost; a node that is no success node is expanded by [`expand`], which is
/// told whether the moment `finish_by` has come. With the first success node found at some
/// cost, the search goes on until no node of that cost is left, and returns every success
/// node of that cost. It ends at once when `expand` finds the deadline passed, with the
/// success nodes found until then, and when it has taken [`EXPAND_LIMIT`] steps.
///
/// What holds of the result is [`searched`]. The clock is looked at before a node is
/// expanded, and a success node is not expanded: so a start node that is a success node is
/// returned whatever the clock shows. That a search comes to its end within the limit is
/// proved of no input, so the contract does not say when it does.
pub fn search(rec: &CPCTPlus, finish_by: &Instant, start_node: PathFNode) -> (found: Found)
    requires
        start_node.laidx <= rec.model().lexemes.len(),
    ensures
        searched(rec.model(), start_node@, found.nodes@, found.complete),
{
    let ghost m = rec.model();
    let ghost llen = m.lexemes.len() as int;
    let ghost start0 = start_node@;
    let ghost strict = m.repairs_cost();
    let mut scs_nodes: Vec<PathFNode> = Vec::new();
    let mut todo: Vec<Vec<PathFNode>> = Vec::new();
    let first = start_node.cf as usize;
    while todo.len() <= first
        invariant
            todo@.len() <= first + 1,
            forall|c: int| 0 <= c < todo@.len() ==> (#[trigger] todo@[c])@.len() == 0,
        decreases first + 1 - todo@.len(),
    {
        todo.push(Vec::new());
    }
    todo[first].push(start_node);
    let mut c: usize = 0;
    let mut steps: u64 = EXPAND_LIMIT;
    // The nodes that have been expanded.
    let ghost mut expanded: Set<NodeView> = Set::empty();
    proof {
        assert forall|d: int| 0 <= d < todo@.len() implies bucket_ok((#[trigger] todo@[d])@, d, llen) by {}
        assert forall|start: Config| #[trigger] start0.ok(m, start) implies frontier_all_ok(todo@, m, start) by {
            assert forall|d: int| 0 <= d < todo@.len() implies all_ok((#[trigger] todo@[d])@, m, start) by {}
        }
        assert(waits_for(strict, todo@, start0)) by {
            assert(todo@[first as int]@[0]@.stands_for(strict, start0));
            assert(bucket_stands_for(strict, todo@[first as int]@, start0));
        }
        assert(m.reached_by(start0, start0)) by {
            assert(m.search_reaches(start0, start0, 0) && start0.alike(start0));
        }
        assert forall|d: int| 0 <= d < todo@.len() implies all_reached((#[trigger] todo@[d])@, m, start0) by {}
        assert(start0.tidy(start0));
        assert(m.sound(start0, start0)) by {
            assert forall|s: Seq<crate::cpctplus::Repair>| #[trigger]
                crate::replay::denotes(start0.entries, s) implies m.first_denotes(start0, start0, s) by {
                assert(m.search_reaches_first(start0, start0, 0) && start0.alike(start0));
            }
        }
        assert forall|d: int| 0 <= d < todo@.len() implies all_sound((#[trigger] todo@[d])@, m, start0) by {}
        assert forall|d: int| 0 <= d < todo@.len() implies all_tidy((#[trigger] todo@[d])@, start0) by {}
    }
    // Look for the first success node.
    loop
        invariant_except_break
            scs_nodes@.len() == 0,
            start0.success(m) ==> only_start(todo@, first as int, start0) && c <= first && steps + c
                == EXPAND_LIMIT,
            frontier_reached(todo@, m, start0),
            stood_for(strict, expanded, start0) || waits_for(strict, todo@, start0),
            forall|e: NodeView, nv: NodeView|
                expanded.contains(e) && #[trigger] e.is_nbr(m, true, nv) ==> stood_for(strict, expanded, nv) || waits_for(strict, 
                    todo@,
                    nv,
                ),
        invariant
            m == rec.model(),
            llen == m.lexemes.len(),
            start0 == start_node@,
            strict == m.repairs_cost(),
            strict ==> frontier_tidy(todo@, start0),
            frontier_sound(todo@, m, start0),
            all_sound(scs_nodes@, m, start0),
            c < todo@.len(),
            frontier_ok(todo@, llen),
            forall|start: Config| #[trigger] start0.ok(m, start) ==> frontier_all_ok(todo@, m, start),
            forall|d: int| 0 <= d < c ==> (#[trigger] todo@[d])@.len() == 0,
            forall|e: NodeView| expanded.contains(e) ==> !e.success(m),
        ensures
            c < todo@.len(),
            c <= u16::MAX,
            scs_nodes@.len() == 1,
            scs_nodes@[0].cf == c,
            scs_nodes@[0].laidx <= llen,
            scs_nodes@[0]@.success(m),
            strict == m.repairs_cost(),
            strict ==> frontier_tidy(todo@, start0),
            frontier_sound(todo@, m, start0),
            all_sound(scs_nodes@, m, start0),
            start0.success(m) ==> scs_nodes@[0]@ == start0,
            m.attained(start0, c as int),
            frontier_ok(todo@, llen),
            m.cheapest(start0, c as int),
            forall|start: Config| #[trigger]
                start0.ok(m, start) ==> frontier_all_ok(todo@, m, start) && scs_nodes@[0]@.ok(m, start),
            stood_for(strict, expanded, start0) || waits_for(strict, todo@, start0) || scs_nodes@[0]@.stands_for(strict, start0),
            forall|e: NodeView, nv: NodeView|
                expanded.contains(e) && #[trigger] e.is_nbr(m, true, nv) ==> stood_for(strict, expanded, nv) || waits_for(strict, 
                    todo@,
                    nv,
                ) || scs_nodes@[0]@.stands_for(strict, nv),
        decreases steps,
    {
        if steps == 0 {
            return Found { nodes: scs_nodes, complete: false };
        }
        steps -= 1;
        if todo[c].len() == 0 {
            if c == todo.len() - 1 {
                // No success node found and the search is exhausted.
                proof {
                    assert forall|nv: NodeView| !waits_for(strict, todo@, nv) by {
                        if waits_for(strict, todo@, nv) {
                            let d = choose|d: int|
                                0 <= d < todo@.len() && bucket_stands_for(strict, (#[trigger] todo@[d])@, nv);
                            assert(todo@[d]@.len() == 0);
                        }
                    }
                    lemma_hopeless(m, strict, start0, expanded);
                }
                return Found { nodes: scs_nodes, complete: true };
            }
            c += 1;
            continue ;
        }
        let ghost todo0 = todo@;
        let n = todo[c].pop().unwrap();
        proof {
            assert(bucket_ok(todo0[c as int]@, c as int, llen));
            assert(n == todo0[c as int]@[todo0[c as int]@.len() - 1]);
            assert(todo@[c as int]@ =~= todo0[c as int]@.drop_last());
            lemma_taken(strict, todo0, todo@, c as int, n);
            lemma_taken_ok(m, start0, todo0, todo@, c as int, n, llen);
            assert(all_sound(todo0[c as int]@, m, start0));
            assert(m.sound(start0, n@));
            assert forall|d: int| 0 <= d < todo@.len() implies all_sound((#[trigger] todo@[d])@, m, start0) by {
                assert(all_sound(todo0[d]@, m, start0));
                if d != c {
                    assert(todo@[d] == todo0[d]);
                } else {
                    assert forall|k: int| 0 <= k < todo@[d]@.len() implies m.sound(start0, (#[trigger] todo@[d]@[k])@) by {
                        assert(todo@[d]@[k] == todo0[d]@[k]);
                    }
                }
            }
            if strict {
                assert(all_tidy(todo0[c as int]@, start0));
                assert(n@.tidy(start0));
                assert forall|d: int| 0 <= d < todo@.len() implies all_tidy((#[trigger] todo@[d])@, start0) by {
                    assert(all_tidy(todo0[d]@, start0));
                    if d != c {
                        assert(todo@[d] == todo0[d]);
                    } else {
                        assert forall|k: int| 0 <= k < todo@[d]@.len() implies (#[trigger] todo@[d]@[k])@.tidy(
                            start0,
                        ) by {
                            assert(todo@[d]@[k] == todo0[d]@[k]);
                        }
                    }
                }
            }
            assert(all_reached(todo0[c as int]@, m, start0));
            assert(m.reached_by(start0, n@));
            assert forall|d: int| 0 <= d < todo@.len() implies all_reached((#[trigger] todo@[d])@, m, start0) by {
                assert(all_reached(todo0[d]@, m, start0));
                if d != c {
                    assert(todo@[d] == todo0[d]);
                } else {
                    assert forall|k: int| 0 <= k < todo@[d]@.len() implies m.reached_by(
                        start0,
                        (#[trigger] todo@[d]@[k])@,
                    ) by {
                        assert(todo@[d]@[k] == todo0[d]@[k]);
                    }
                }
            }
            assert forall|d: int| 0 <= d < c implies (#[trigger] todo@[d])@.len() == 0 by {
                assert(todo@[d] == todo0[d]);
            }
        }
        if rec.success(&n) {
            proof {
                // Every node that waits, and the one found, costs at least what it costs.
                let rest = waiting(todo@).insert(n@);
                assert forall|x: NodeView| rest.contains(x) implies x.cf >= c by {
                    if x != n@ {
                        let (d, k) = choose|d: int, k: int|
                            0 <= d < todo@.len() && 0 <= k < todo@[d]@.len() && (#[trigger] todo@[d]@[k])@ == x;
                        assert(bucket_ok(todo@[d]@, d, llen));
                        if d < c {
                            assert(todo@[d]@.len() == 0);
                        }
                    }
                }
                assert forall|nv: NodeView| waits_for(strict, todo0, nv) implies stood_for(strict, rest, nv) by {
                    if waits_for(strict, todo@, nv) {
                        let d = choose|d: int| 0 <= d < todo@.len() && bucket_stands_for(strict, (#[trigger] todo@[d])@, nv);
                        let k = choose|k: int| 0 <= k < todo@[d]@.len() && (#[trigger] todo@[d]@[k])@.stands_for(strict, nv);
                        assert(rest.contains(todo@[d]@[k]@));
                    } else {
                        assert(n@.stands_for(strict, nv));
                        assert(rest.contains(n@));
                    }
                }
                lemma_cheapest(m, strict, start0, expanded, rest, c as int);
                lemma_reached_success(m, start0, n@);
            }
            scs_nodes.push(n);
            break ;
        }
        let ghost todo1 = todo@;
        let ghost expanded0 = expanded;
        proof {
            assert(node_tidy(m, strict, start0, todo1, n@));
        }
        if !expand(rec, &mut todo, &n, None, deadline_passed(finish_by)) {
            return Found { nodes: scs_nodes, complete: false };
        }
        proof {
            assert(stepped(m, strict, start0, todo1, n@, None, todo@));
            assert forall|start: Config| #[trigger] start0.ok(m, start) implies frontier_all_ok(todo@, m, start) by {
                assert(frontier_all_ok(todo1, m, start) && n@.ok(m, start));
            }
        }
        proof {
            expanded = expanded.insert(n@);
            assert(n@.stands_for(strict, n@));
            assert forall|nv: NodeView| waits_for(strict, todo0, nv) implies stood_for(strict, expanded, nv) || waits_for(strict, 
                todo@,
                nv,
            ) by {
                if waits_for(strict, todo1, nv) {
                    assert(waits_for(strict, todo@, nv));
                } else {
                    assert(n@.stands_for(strict, nv));
                    assert(expanded.contains(n@));
                }
            }
            assert forall|nv: NodeView| stood_for(strict, expanded0, nv) implies stood_for(strict, expanded, nv) by {
                let r = choose|r: NodeView| expanded0.contains(r) && #[trigger] r.stands_for(strict, nv);
                assert(expanded.contains(r));
            }
            assert forall|e: NodeView, nv: NodeView|
                expanded.contains(e) && #[trigger] e.is_nbr(m, true, nv) implies stood_for(strict, expanded, nv)
                || waits_for(strict, todo@, nv) by {
                if e == n@ {
                    assert(waits_for(strict, todo@, nv));
                } else {
                    assert(expanded0.contains(e));
                    if !stood_for(strict, expanded0, nv) {
                        assert(waits_for(strict, todo0, nv));
                    }
                }
            }
            assert forall|d: int| 0 <= d < c implies (#[trigger] todo@[d])@.len() == 0 by {
                assert(todo@[d]@ == todo1[d]@);
            }
        }
    }
    // Look for the other success nodes of the same cost.
    proof {
        assert(node_views(scs_nodes@).contains(scs_nodes@[0]@));
    }
    loop
        invariant
            m == rec.model(),
            llen == m.lexemes.len(),
            start0 == start_node@,
            strict == m.repairs_cost(),
            strict ==> frontier_tidy(todo@, start0),
            frontier_sound(todo@, m, start0),
            all_sound(scs_nodes@, m, start0),
            c < todo@.len(),
            c <= u16::MAX,
            frontier_ok(todo@, llen),
            scs_nodes@.len() > 0,
            start0.success(m) ==> scs_nodes@[0]@ == start0,
            m.attained(start0, c as int),
            m.cheapest(start0, c as int),
            forall|i: int|
                0 <= i < scs_nodes@.len() ==> (#[trigger] scs_nodes@[i])@.success(m) && scs_nodes@[i].laidx <= llen
                    && scs_nodes@[i].cf == c,
            forall|start: Config| #[trigger]
                start0.ok(m, start) ==> frontier_all_ok(todo@, m, start) && all_ok(scs_nodes@, m, start),
            forall|d: int| 0 <= d < c ==> (#[trigger] todo@[d])@.len() == 0,
            forall|e: NodeView| expanded.contains(e) ==> !e.success(m),
            stood_for(strict, expanded, start0) || waits_for(strict, todo@, start0) || stood_for(strict, node_views(scs_nodes@), start0),
            m.repairs_cost() ==> forall|e: NodeView, nv: NodeView|
                expanded.contains(e) && #[trigger] e.is_nbr(m, true, nv) && nv.cf <= c ==> stood_for(strict, expanded, nv)
                    || waits_for(strict, todo@, nv) || stood_for(strict, node_views(scs_nodes@), nv),
        decreases steps,
    {
        if steps == 0 {
            return Found { nodes: scs_nodes, complete: false };
        }
        steps -= 1;
        if todo[c].len() == 0 {
            proof {
                let found = node_views(scs_nodes@);
                assert forall|nv: NodeView| nv.cf <= c implies !waits_for(strict, todo@, nv) by {
                    if waits_for(strict, todo@, nv) {
                        let d = choose|d: int| 0 <= d < todo@.len() && bucket_stands_for(strict, (#[trigger] todo@[d])@, nv);
                        let k = choose|k: int| 0 <= k < todo@[d]@.len() && (#[trigger] todo@[d]@[k])@.stands_for(strict, nv);
                        assert(bucket_ok(todo@[d]@, d, llen));
                        if d < c {
                            assert(todo@[d]@.len() == 0);
                        }
                    }
                }
                assert forall|f: NodeView| found.contains(f) implies f.success(m) by {
                    let i = choose|i: int| 0 <= i < scs_nodes@.len() && (#[trigger] scs_nodes@[i])@ == f;
                }
                if m.repairs_cost() {
                    lemma_all_found(m, start0, expanded, found, c as int);
                    lemma_all_yielded(m, start0, c as int, found);
                    assert forall|f: NodeView| found.contains(f) implies f.success(m) && f.cf == c && m.sound(
                        start0,
                        f,
                    ) by {
                        let i = choose|i: int| 0 <= i < scs_nodes@.len() && (#[trigger] scs_nodes@[i])@ == f;
                    }
                    lemma_found_exact(m, start0, c as int, found);
                }
            }
            return Found { nodes: scs_nodes, complete: true };
        }
        let ghost todo0 = todo@;
        let ghost scs0 = scs_nodes@;
        let n = todo[c].pop().unwrap();
        proof {
            assert(bucket_ok(todo0[c as int]@, c as int, llen));
            assert(n == todo0[c as int]@[todo0[c as int]@.len() - 1]);
            assert(todo@[c as int]@ =~= todo0[c as int]@.drop_last());
            lemma_taken(strict, todo0, todo@, c as int, n);
            lemma_taken_ok(m, start0, todo0, todo@, c as int, n, llen);
            assert(all_sound(todo0[c as int]@, m, start0));
            assert(m.sound(start0, n@));
            assert forall|d: int| 0 <= d < todo@.len() implies all_sound((#[trigger] todo@[d])@, m, start0) by {
                assert(all_sound(todo0[d]@, m, start0));
                if d != c {
                    assert(todo@[d] == todo0[d]);
                } else {
                    assert forall|k: int| 0 <= k < todo@[d]@.len() implies m.sound(start0, (#[trigger] todo@[d]@[k])@) by {
                        assert(todo@[d]@[k] == todo0[d]@[k]);
                    }
                }
            }
            if strict {
                assert(all_tidy(todo0[c as int]@, start0));
                assert(n@.tidy(start0));
                assert forall|d: int| 0 <= d < todo@.len() implies all_tidy((#[trigger] todo@[d])@, start0) by {
                    assert(all_tidy(todo0[d]@, start0));
                    if d != c {
                        assert(todo@[d] == todo0[d]);
                    } else {
                        assert forall|k: int| 0 <= k < todo@[d]@.len() implies (#[trigger] todo@[d]@[k])@.tidy(
                            start0,
                        ) by {
                            assert(todo@[d]@[k] == todo0[d]@[k]);
                        }
                    }
                }
            }
            assert forall|d: int| 0 <= d < c implies (#[trigger] todo@[d])@.len() == 0 by {
                assert(todo@[d] == todo0[d]);
            }
        }
        if rec.success(&n) {
            scs_nodes.push(n);
            proof {
                let found0 = node_views(scs0);
                let found = node_views(scs_nodes@);
                assert forall|i: int| 0 <= i < scs_nodes@.len() implies (#[trigger] scs_nodes@[i])@.success(m)
                    && scs_nodes@[i].laidx <= llen && scs_nodes@[i].cf == c by {
                    if i < scs0.len() {
                        assert(scs_nodes@[i] == scs0[i]);
                    }
                }
                assert forall|start: Config| #[trigger] start0.ok(m, start) implies frontier_all_ok(
                    todo@,
                    m,
                    start,
                ) && all_ok(scs_nodes@, m, start) by {
                    assert(all_ok(scs0, m, start));
                    assert forall|i: int| 0 <= i < scs_nodes@.len() implies (#[trigger] scs_nodes@[i])@.ok(
                        m,
                        start,
                    ) by {
                        if i < scs0.len() {
                            assert(scs_nodes@[i] == scs0[i]);
                        }
                    }
                }
                assert(found.contains(n@)) by {
                    assert(scs_nodes@[scs0.len() as int]@ == n@);
                }
                assert forall|nv: NodeView| stood_for(strict, found0, nv) implies stood_for(strict, found, nv) by {
                    let r = choose|r: NodeView| found0.contains(r) && #[trigger] r.stands_for(strict, nv);
                    let i = choose|i: int| 0 <= i < scs0.len() && (#[trigger] scs0[i])@ == r;
                    assert(scs_nodes@[i] == scs0[i]);
                    assert(found.contains(r));
                }
                assert forall|nv: NodeView| waits_for(strict, todo0, nv) implies waits_for(strict, todo@, nv) || stood_for(strict, 
                    found,
                    nv,
                ) by {
                    if !waits_for(strict, todo@, nv) {
                        assert(n@.stands_for(strict, nv));
                    }
                }
                if m.repairs_cost() {
                    assert forall|e: NodeView, nv: NodeView|
                        expanded.contains(e) && #[trigger] e.is_nbr(m, true, nv) && nv.cf <= c implies stood_for(strict, 
                        expanded,
                        nv,
                    ) || waits_for(strict, todo@, nv) || stood_for(strict, found, nv) by {
                        if !stood_for(strict, expanded, nv) && !stood_for(strict, found0, nv) {
                            assert(waits_for(strict, todo0, nv));
                        }
                    }
                }
            }
            continue ;
        }
        let ghost todo1 = todo@;
        let ghost expanded0 = expanded;
        proof {
            assert(node_tidy(m, strict, start0, todo1, n@));
        }
        if !expand(rec, &mut todo, &n, Some(c as u16), deadline_passed(finish_by)) {
            return Found { nodes: scs_nodes, complete: false };
        }
        proof {
            assert(stepped(m, strict, start0, todo1, n@, Some(c as u16), todo@));
            assert forall|start: Config| #[trigger] start0.ok(m, start) implies frontier_all_ok(todo@, m, start) by {
                assert(frontier_all_ok(todo1, m, start) && n@.ok(m, start));
            }
        }
        proof {
            let found = node_views(scs_nodes@);
            expanded = expanded.insert(n@);
            assert(n@.stands_for(strict, n@));
            assert forall|nv: NodeView| waits_for(strict, todo0, nv) implies stood_for(strict, expanded, nv) || waits_for(strict, 
                todo@,
                nv,
            ) by {
                if waits_for(strict, todo1, nv) {
                    assert(waits_for(strict, todo@, nv));
                } else {
                    assert(n@.stands_for(strict, nv));
                    assert(expanded.contains(n@));
                }
            }
            assert forall|nv: NodeView| stood_for(strict, expanded0, nv) implies stood_for(strict, expanded, nv) by {
                let r = choose|r: NodeView| expanded0.contains(r) && #[trigger] r.stands_for(strict, nv);
                assert(expanded.contains(r));
            }
            if m.repairs_cost() {
                assert forall|e: NodeView, nv: NodeView|
                    expanded.contains(e) && #[trigger] e.is_nbr(m, true, nv) && nv.cf <= c implies stood_for(strict, 
                    expanded,
                    nv,
                ) || waits_for(strict, todo@, nv) || stood_for(strict, found, nv) by {
                    if e == n@ {
                        // An insertion or a deletion would cost more.
                        assert(n@.is_nbr(m, false, nv));
                        crate::replay::lemma_nbr_cost(m, n@, nv);
                        assert(nv.cf == c);
                        assert(waits_for(strict, todo@, nv));
                    } else {
                        assert(expanded0.contains(e));
                        if !stood_for(strict, expanded0, nv) && !stood_for(strict, found, nv) {
                            assert(waits_for(strict, todo0, nv));
                        }
                    }
                }
            }
            assert forall|d: int| 0 <= d < c implies (#[trigger] todo@[d])@.len() == 0 by {
                assert(todo@[d]@ == todo1[d]@);
            }
        }
    }
}

/// What holds of the frontier, and of the node taken, after a node was taken from the end of
/// bucket `c`.
proof fn lemma_taken_ok(
    m: ParserModel,
    start0: NodeView,
    before: Seq<Vec<PathFNode>>,
    after: Seq<Vec<PathFNode>>,
    c: int,
    n: PathFNode,
    llen: int,
)
    requires
        0 <= c < before.len(),
        after.len() == before.len(),
        before[c]@.len() > 0,
        n == before[c]@.last(),
        after[c]@ == before[c]@.drop_last(),
        forall|d: int| 0 <= d < before.len() && d != c ==> #[trigger] after[d] == before[d],
        frontier_ok(before, llen),
        forall|start: Config| #[trigger] start0.ok(m, start) ==> frontier_all_ok(before, m, start),
    ensures
        frontier_ok(after, llen),
        n.cf == c,
        n.laidx <= llen,
        forall|start: Config| #[trigger] start0.ok(m, start) ==> frontier_all_ok(after, m, start) && n@.ok(m, start),
{
    assert(bucket_ok(before[c]@, c, llen));
    assert forall|d: int| 0 <= d < after.len() implies bucket_ok((#[trigger] after[d])@, d, llen) by {
        if d != c {
            assert(after[d] == before[d]);
        } else {
            assert forall|k: int| 0 <= k < after[d]@.len() implies (#[trigger] after[d]@[k]).cf == d
                && after[d]@[k].laidx <= llen by {
                assert(after[d]@[k] == before[d]@[k]);
            }
        }
    }
    assert forall|start: Config| #[trigger] start0.ok(m, start) implies frontier_all_ok(after, m, start) && n@.ok(
        m,
        start,
    ) by {
        assert(frontier_all_ok(before, m, start));
        assert(all_ok(before[c]@, m, start));
        assert forall|d: int| 0 <= d < after.len() implies all_ok((#[trigger] after[d])@, m, start) by {
            if d != c {
                assert(after[d] == before[d]);
                assert(all_ok(before[d]@, m, start));
            } else {
                assert forall|k: int| 0 <= k < after[d]@.len() implies (#[trigger] after[d]@[k])@.ok(m, start) by {
                    assert(after[d]@[k] == before[d]@[k]);
                }
            }
        }
    }
}

/// Searches from `start_node` for success nodes, as [`search`] does, and returns the nodes
/// found, without what the search says of itself.
pub fn dijkstra(rec: &CPCTPlus, finish_by: &Instant, start_node: PathFNode) -> (scs_nodes: Vec<PathFNode>)
    requires
        start_node.laidx <= rec.model().lexemes.len(),
    ensures
        exists|complete: bool| #[trigger] searched(rec.model(), start_node@, scs_nodes@, complete),
{
    let found = search(rec, finish_by, start_node);
    assert(searched(rec.model(), start_node@, found.nodes@, found.complete));
    found.nodes
}

} // verus!
