//! Tables of bit vectors, one row per rule, and the measure by which the fixed-point loops of
//! the grammar analyses terminate: the number of bits that are still unset.

use crate::bits::{vob_bits, vob_get, vob_set};
use vob::Vob;
use vstd::prelude::*;

verus! {

/// The bits of each row.
pub open spec fn rows_bits(rows: Seq<Vob<usize>>) -> Seq<Seq<bool>> {
    Seq::new(rows.len(), |r: int| vob_bits(rows[r]))
}

/// `m` has `n` rows of `w` bits each.
pub open spec fn has_shape(m: Seq<Seq<bool>>, n: nat, w: nat) -> bool {
    m.len() == n && forall|r: int| 0 <= r < n ==> (#[trigger] m[r]).len() == w
}

/// Every bit set in `a` is set in `b`; both have the same length.
pub open spec fn row_within(a: Seq<bool>, b: Seq<bool>) -> bool {
    a.len() == b.len() && forall|i: int| 0 <= i < a.len() && a[i] ==> #[trigger] b[i]
}

/// Row by row, every bit set in `a` is set in `b`.
pub open spec fn rows_within(a: Seq<Seq<bool>>, b: Seq<Seq<bool>>) -> bool {
    a.len() == b.len() && forall|r: int| 0 <= r < a.len() ==> row_within(#[trigger] a[r], b[r])
}

/// The number of unset bits in `s`.
pub open spec fn count_unset(s: Seq<bool>) -> nat
    decreases s.len(),
{
    if s.len() == 0 {
        0
    } else {
        count_unset(s.drop_last()) + if s.last() {
            0nat
        } else {
            1nat
        }
    }
}

/// The number of unset bits in all rows of `m`.
pub open spec fn rows_unset(m: Seq<Seq<bool>>) -> nat
    decreases m.len(),
{
    if m.len() == 0 {
        0
    } else {
        rows_unset(m.drop_last()) + count_unset(m.last())
    }
}

/// Setting bits never raises the number of unset bits, and lowers it if any bit changed.
pub proof fn lemma_count_unset_within(a: Seq<bool>, b: Seq<bool>)
    requires
        row_within(a, b),
    ensures
        count_unset(b) <= count_unset(a),
        a != b ==> count_unset(b) < count_unset(a),
    decreases a.len(),
{
    if a.len() == 0 {
        assert(a =~= b);
    } else {
        let a0 = a.drop_last();
        let b0 = b.drop_last();
        assert(row_within(a0, b0)) by {
            assert forall|i: int| 0 <= i < a0.len() && a0[i] implies #[trigger] b0[i] by {
                assert(a[i]);
                assert(b[i]);
            }
        }
        lemma_count_unset_within(a0, b0);
        assert(a.last() ==> b.last()) by {
            if a[a.len() - 1] {
                assert(b[a.len() - 1]);
            }
        }
        if a != b {
            if a0 == b0 {
                if a.last() == b.last() {
                    assert(a =~= a0.push(a.last()));
                    assert(b =~= b0.push(b.last()));
                }
            }
        }
    }
}

/// The same, for tables.
pub proof fn lemma_rows_unset_within(a: Seq<Seq<bool>>, b: Seq<Seq<bool>>)
    requires
        rows_within(a, b),
    ensures
        rows_unset(b) <= rows_unset(a),
        a != b ==> rows_unset(b) < rows_unset(a),
    decreases a.len(),
{
    if a.len() == 0 {
        assert(a =~= b);
    } else {
        let a0 = a.drop_last();
        let b0 = b.drop_last();
        assert(rows_within(a0, b0)) by {
            assert forall|r: int| 0 <= r < a0.len() implies row_within(#[trigger] a0[r], b0[r]) by {
                assert(row_within(a[r], b[r]));
            }
        }
        lemma_rows_unset_within(a0, b0);
        assert(row_within(a[a.len() - 1], b[a.len() - 1]));
        lemma_count_unset_within(a.last(), b.last());
        if a != b {
            if a0 == b0 {
                if a.last() == b.last() {
                    assert(a =~= a0.push(a.last()));
                    assert(b =~= b0.push(b.last()));
                }
            }
        }
    }
}

/// The effect of growing one row of a table on the number of unset bits.
pub proof fn lemma_grow_row(before: Seq<Seq<bool>>, after: Seq<Seq<bool>>, dst: int)
    requires
        before.len() == after.len(),
        0 <= dst < before.len(),
        forall|r: int| 0 <= r < before.len() && r != dst ==> #[trigger] after[r] == before[r],
        row_within(before[dst], after[dst]),
    ensures
        rows_within(before, after),
        rows_unset(after) <= rows_unset(before),
        after[dst] != before[dst] ==> rows_unset(after) < rows_unset(before),
        after[dst] == before[dst] ==> after == before,
{
    assert(rows_within(before, after)) by {
        assert forall|r: int| 0 <= r < before.len() implies row_within(#[trigger] before[r], after[r]) by {
            if r != dst {
                assert(after[r] == before[r]);
            }
        }
    }
    lemma_rows_unset_within(before, after);
    if after[dst] == before[dst] {
        assert(after =~= before);
    }
}

/// Sets in row `dst` every bit that is set in row `src`, and says whether `dst` changed.
pub fn union_rows(rows: &mut Vec<Vob<usize>>, dst: usize, src: usize, width: usize) -> (changed: bool)
    requires
        dst < old(rows)@.len(),
        src < old(rows)@.len(),
        has_shape(rows_bits(old(rows)@), old(rows)@.len() as nat, width as nat),
    ensures
        final(rows)@.len() == old(rows)@.len(),
        has_shape(rows_bits(final(rows)@), old(rows)@.len() as nat, width as nat),
        forall|r: int|
            0 <= r < old(rows)@.len() && r != dst ==> #[trigger] final(rows)@[r] == old(rows)@[r],
        forall|t: int|
            0 <= t < width ==> #[trigger] vob_bits(final(rows)@[dst as int])[t] == (vob_bits(
                old(rows)@[dst as int],
            )[t] || vob_bits(old(rows)@[src as int])[t]),
        changed == (vob_bits(final(rows)@[dst as int]) != vob_bits(old(rows)@[dst as int])),
{
    let mut changed = false;
    let mut t: usize = 0;
    assert(rows_bits(rows@)[dst as int].len() == width);
    assert(rows_bits(rows@)[src as int].len() == width);
    while t < width
        invariant
            dst < rows@.len(),
            src < rows@.len(),
            t <= width,
            rows@.len() == old(rows)@.len(),
            vob_bits(rows@[dst as int]).len() == width,
            vob_bits(rows@[src as int]).len() == width,
            vob_bits(old(rows)@[dst as int]).len() == width,
            vob_bits(old(rows)@[src as int]).len() == width,
            forall|r: int| 0 <= r < rows@.len() && r != dst ==> #[trigger] rows@[r] == old(rows)@[r],
            forall|k: int|
                0 <= k < t ==> #[trigger] vob_bits(rows@[dst as int])[k] == (vob_bits(
                    old(rows)@[dst as int],
                )[k] || vob_bits(old(rows)@[src as int])[k]),
            forall|k: int|
                t <= k < width ==> #[trigger] vob_bits(rows@[dst as int])[k] == vob_bits(
                    old(rows)@[dst as int],
                )[k],
            changed == exists|k: int|
                0 <= k < t && #[trigger] vob_bits(rows@[dst as int])[k] != vob_bits(
                    old(rows)@[dst as int],
                )[k],
        decreases width - t,
    {
        let ghost before = rows@;
        let bit = vob_get(&rows[src], t);
        if bit {
            let ch = vob_set(&mut rows[dst], t, true);
            if ch {
                changed = true;
            }
        }
        proof {
            assert(forall|k: int|
                0 <= k < width && k != t ==> vob_bits(rows@[dst as int])[k] == vob_bits(
                    before[dst as int],
                )[k]);
            if src != dst {
                assert(rows@[src as int] == old(rows)@[src as int]);
            }
            if changed {
                if vob_bits(rows@[dst as int])[t as int] != vob_bits(old(rows)@[dst as int])[t as int] {
                } else {
                    let k = choose|k: int|
                        0 <= k < t && #[trigger] vob_bits(before[dst as int])[k] != vob_bits(
                            old(rows)@[dst as int],
                        )[k];
                    assert(vob_bits(rows@[dst as int])[k] != vob_bits(old(rows)@[dst as int])[k]);
                }
            }
        }
        t += 1;
    }
    proof {
        if changed {
            let k = choose|k: int|
                0 <= k < t && #[trigger] vob_bits(rows@[dst as int])[k] != vob_bits(
                    old(rows)@[dst as int],
                )[k];
        } else {
            assert(vob_bits(rows@[dst as int]) =~= vob_bits(old(rows)@[dst as int]));
        }
        assert forall|r: int| 0 <= r < rows@.len() implies (#[trigger] rows_bits(rows@)[r]).len()
            == width by {
            if r != dst {
                assert(rows@[r] == old(rows)@[r]);
                assert(rows_bits(old(rows)@)[r].len() == width);
            }
        }
    }
    changed
}

} // verus!
