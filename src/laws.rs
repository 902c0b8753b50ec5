//! Properties of settled stacks, proved from the model of settlement.

use vstd::prelude::*;

use crate::brick::{same_extent, Brick};
use crate::grid::Position;
use crate::settle::{
    highest_under, index_before, is_settle_order, lemma_highest_under_congruent,
    lemma_highest_under_is_max, lemma_index_before_asymmetric, lemma_overlap_cell, lowered_as,
    overlaps, reorder, settled_stack, sole_support, supports,
};

verus! {

/// Two bricks whose footprints share a cell never share a level once settled:
/// one lies wholly below the other.
pub proof fn lemma_no_overlap(bs: Seq<Brick>, out: Seq<Brick>, i: int, j: int, c: Position)
    requires
        settled_stack(bs, out),
        0 <= i < out.len(),
        0 <= j < out.len(),
        i != j,
        out[i].covers(c),
        out[j].covers(c),
    ensures
        out[i].upper.z < out[j].lower.z || out[j].upper.z < out[i].lower.z,
{
    let (a, b) = if i < j {
        (i, j)
    } else {
        (j, i)
    };
    lemma_highest_under_is_max(out, b, b);
    assert(overlaps(out[a], out[b]));
    assert(lowered_as(out[b], bs[b], 1 + highest_under(out, b, b)));
}

/// Every settled brick rests on the ground (level 1) or right on top of
/// another settled brick that shares a cell of its footprint.
pub proof fn lemma_ground_contact(bs: Seq<Brick>, out: Seq<Brick>, k: int)
    requires
        settled_stack(bs, out),
        0 <= k < out.len(),
    ensures
        out[k].lower.z == 1 || exists|j: int, c: Position|
            0 <= j < out.len() && j != k && #[trigger] out[j].covers(c) && out[k].covers(c)
                && out[k].lower.z == 1 + out[j].upper.z,
{
    lemma_highest_under_is_max(out, k, k);
    assert(lowered_as(out[k], bs[k], 1 + highest_under(out, k, k)));
    if highest_under(out, k, k) != 0 {
        let j = choose|j: int|
            0 <= j < k && overlaps(#[trigger] out[j], out[k]) && out[j].upper.z == highest_under(
                out,
                k,
                k,
            );
        let c = lemma_overlap_cell(out[j], out[k]);
        assert(out[j].covers(c) && out[k].covers(c));
    }
}

/// A brick that lands on two or more bricks at once makes neither of them
/// its sole support.
pub proof fn lemma_multi_support(out: Seq<Brick>, a: int, b: int, k: int)
    requires
        supports(out, a, k),
        supports(out, b, k),
        a != b,
    ensures
        !sole_support(out, a, k),
        !sole_support(out, b, k),
{
}

/// There is one order of settlement for a list of bricks.
pub proof fn lemma_settle_order_unique(bs: Seq<Brick>, o1: Seq<usize>, o2: Seq<usize>)
    requires
        is_settle_order(bs, o1),
        is_settle_order(bs, o2),
    ensures
        o1 == o2,
{
    assert forall|p: int| 0 <= p < o1.len() implies o1[p] == o2[p] by {
        lemma_settle_order_agrees_up_to(bs, o1, o2, p + 1);
    }
    assert(o1 =~= o2);
}

proof fn lemma_settle_order_agrees_up_to(bs: Seq<Brick>, o1: Seq<usize>, o2: Seq<usize>, p: int)
    requires
        is_settle_order(bs, o1),
        is_settle_order(bs, o2),
        0 <= p <= o1.len(),
    ensures
        forall|q: int| 0 <= q < p ==> o1[q] == o2[q],
    decreases p,
{
    if p > 0 {
        lemma_settle_order_agrees_up_to(bs, o1, o2, p - 1);
        let q = p - 1;
        let a = o1[q];
        let b = o2[q];
        if a != b {
            assert(o2.contains(a));
            let qa = choose|i: int| 0 <= i < o2.len() && o2[i] == a;
            assert(o1.contains(b));
            let qb = choose|i: int| 0 <= i < o1.len() && o1[i] == b;
            if qa < q {
                assert(o1[qa] == a);
                lemma_index_before_asymmetric(bs, o1[qa] as int, o1[q] as int);
            }
            if qb < q {
                assert(o2[qb] == b);
                lemma_index_before_asymmetric(bs, o2[qb] as int, o2[q] as int);
            }
            assert(index_before(bs, b as int, a as int));
            assert(index_before(bs, a as int, b as int));
            lemma_index_before_asymmetric(bs, a as int, b as int);
        }
    }
}

/// Two settled stacks of the same bricks in the same order agree on every
/// brick's position.
pub proof fn lemma_settled_stack_unique(bs: Seq<Brick>, out1: Seq<Brick>, out2: Seq<Brick>)
    requires
        settled_stack(bs, out1),
        settled_stack(bs, out2),
    ensures
        forall|k: int| 0 <= k < out1.len() ==> same_extent(#[trigger] out1[k], out2[k]),
{
    assert forall|k: int| 0 <= k < out1.len() implies same_extent(#[trigger] out1[k], out2[k]) by {
        lemma_settled_stack_agrees_up_to(bs, out1, out2, k + 1);
    }
}

proof fn lemma_settled_stack_agrees_up_to(bs: Seq<Brick>, out1: Seq<Brick>, out2: Seq<Brick>, p: int)
    requires
        settled_stack(bs, out1),
        settled_stack(bs, out2),
        0 <= p <= out1.len(),
    ensures
        forall|q: int| 0 <= q < p ==> same_extent(#[trigger] out1[q], out2[q]),
    decreases p,
{
    if p > 0 {
        let k = p - 1;
        lemma_settled_stack_agrees_up_to(bs, out1, out2, k);
        assert(lowered_as(out1[k], bs[k], 1 + highest_under(out1, k, k)));
        assert(lowered_as(out2[k], bs[k], 1 + highest_under(out2, k, k)));
        assert forall|i: int| 0 <= i < k implies out1[i].plan_spec() == out2[i].plan_spec()
            && out1[i].upper.z == out2[i].upper.z by {
            assert(same_extent(out1[i], out2[i]));
        }
        lemma_highest_under_congruent(out1, out2, k, k, k);
    }
}

/// Settling is deterministic: settling again bricks already listed in order
/// of settlement leaves every brick where it was.
pub proof fn lemma_resettle_identical(
    bs: Seq<Brick>,
    ord: Seq<usize>,
    out: Seq<Brick>,
    ord2: Seq<usize>,
    out2: Seq<Brick>,
)
    requires
        bs.len() <= usize::MAX,
        is_settle_order(bs, ord),
        settled_stack(reorder(bs, ord), out),
        is_settle_order(reorder(bs, ord), ord2),
        settled_stack(reorder(reorder(bs, ord), ord2), out2),
    ensures
        out2.len() == out.len(),
        forall|k: int| 0 <= k < out.len() ==> same_extent(#[trigger] out2[k], out[k]),
{
    let sorted = reorder(bs, ord);
    let id = Seq::new(sorted.len(), |i: int| i as usize);
    assert(is_settle_order(sorted, id)) by {
        assert forall|i: int, j: int| 0 <= i < j < id.len() implies index_before(
            sorted,
            id[i] as int,
            id[j] as int,
        ) by {
            assert(index_before(bs, ord[i] as int, ord[j] as int));
            assert(id[i] == i && id[j] == j);
            assert(sorted[i] == bs[ord[i] as int]);
            assert(sorted[j] == bs[ord[j] as int]);
        }
        assert forall|v: usize| v < sorted.len() implies #[trigger] id.contains(v) by {
            assert(id[v as int] == v);
        }
    }
    lemma_settle_order_unique(sorted, ord2, id);
    assert forall|k: int| 0 <= k < sorted.len() implies reorder(sorted, ord2)[k] == sorted[k] by {
        assert(ord2[k] == id[k]);
    }
    assert(reorder(sorted, ord2) =~= sorted);
    lemma_settled_stack_unique(sorted, out2, out);
}

} // verus!
