//! Settling bricks in order and finding the ones no other brick depends on.

use std::collections::HashSet;

use vstd::prelude::*;

use crate::brick::{brick_cmp, brick_lt, same_extent, Brick, Position3};
use crate::grid::Position;
use crate::surface::{height_and_owner, Surface};

verus! {

broadcast use vstd::std_specs::hash::group_hash_axioms;

// ---------------------------------------------------------------------------
// The model: order of settlement, resting levels, support.
// ---------------------------------------------------------------------------

/// Brick `a` of `bs` is settled before brick `b`: it sorts lower, or the two
/// have the same extent and `a` came first.
pub open spec fn index_before(bs: Seq<Brick>, a: int, b: int) -> bool {
    brick_lt(bs[a], bs[b]) || (same_extent(bs[a], bs[b]) && a < b)
}

/// `ord` lists every index of `bs` once, in the order of settlement.
pub open spec fn is_settle_order(bs: Seq<Brick>, ord: Seq<usize>) -> bool {
    &&& ord.len() == bs.len()
    &&& forall|i: int| 0 <= i < ord.len() ==> #[trigger] ord[i] < bs.len()
    &&& forall|i: int, j: int|
        0 <= i < j < ord.len() ==> index_before(bs, ord[i] as int, ord[j] as int)
    &&& forall|v: usize| v < bs.len() ==> #[trigger] ord.contains(v)
}

/// The bricks of `bs` in the order `ord`.
pub open spec fn reorder(bs: Seq<Brick>, ord: Seq<usize>) -> Seq<Brick> {
    ord.map_values(|i: usize| bs[i as int])
}

/// The footprints of `a` and `b` share at least one cell.
pub open spec fn overlaps(a: Brick, b: Brick) -> bool {
    let pa = a.plan_spec();
    let pb = b.plan_spec();
    &&& pa.top_left.x <= pb.bottom_right.x
    &&& pb.top_left.x <= pa.bottom_right.x
    &&& pa.top_left.y <= pb.bottom_right.y
    &&& pb.top_left.y <= pa.bottom_right.y
}

/// The highest top among the first `j` bricks of `out` whose footprint
/// meets that of brick `k`; 0 (the ground) when there is none.
pub open spec fn highest_under(out: Seq<Brick>, k: int, j: int) -> int
    decreases j,
{
    if j <= 0 {
        0
    } else {
        let prev = highest_under(out, k, j - 1);
        if overlaps(out[j - 1], out[k]) && out[j - 1].upper.z > prev {
            out[j - 1].upper.z as int
        } else {
            prev
        }
    }
}

/// Brick `s` is brick `b` moved vertically to rest with its lower end at `z`.
pub open spec fn lowered_as(s: Brick, b: Brick, z: int) -> bool {
    &&& s.lower == Position3 { z: z as i64, ..b.lower }
    &&& s.upper == Position3 { z: (z + b.height()) as i64, ..b.upper }
    &&& crate::brick::label_view(s.label) == crate::brick::label_view(b.label)
    &&& s.lower.z == z
    &&& s.upper.z == z + b.height()
}

/// `out` is `bs` dropped one brick at a time in the given order: each brick
/// comes to rest one level above the highest brick already settled under it.
pub open spec fn settled_stack(bs: Seq<Brick>, out: Seq<Brick>) -> bool {
    &&& out.len() == bs.len()
    &&& forall|k: int|
        0 <= k < out.len() ==> lowered_as(#[trigger] out[k], bs[k], 1 + highest_under(out, k, k))
}

/// Settled brick `j` holds up settled brick `k`: it lies right under it.
pub open spec fn supports(out: Seq<Brick>, j: int, k: int) -> bool {
    &&& 0 <= j < k < out.len()
    &&& overlaps(out[j], out[k])
    &&& out[j].upper.z + 1 == out[k].lower.z
}

/// Brick `j` is the only brick holding up brick `k`.
pub open spec fn sole_support(out: Seq<Brick>, j: int, k: int) -> bool {
    &&& supports(out, j, k)
    &&& forall|i: int| #[trigger] supports(out, i, k) ==> i == j
}

/// Some brick rests on settled brick `j` alone.
pub open spec fn load_bearing(out: Seq<Brick>, j: int) -> bool {
    exists|k: int| #[trigger] sole_support(out, j, k)
}

/// The input indices of the settled bricks that no brick rests on alone.
pub open spec fn removable(ord: Seq<usize>, out: Seq<Brick>) -> Set<usize> {
    Set::new(|i: usize| exists|j: int| 0 <= j < ord.len() && ord[j] == i && !load_bearing(out, j))
}

// ---------------------------------------------------------------------------
// Order of settlement.
// ---------------------------------------------------------------------------

proof fn lemma_index_before_transitive(bs: Seq<Brick>, a: int, b: int, c: int)
    requires
        index_before(bs, a, b),
        index_before(bs, b, c),
    ensures
        index_before(bs, a, c),
{
}

proof fn lemma_index_before_total(bs: Seq<Brick>, a: int, b: int)
    requires
        a != b,
        !index_before(bs, a, b),
    ensures
        index_before(bs, b, a),
{
}

pub proof fn lemma_index_before_asymmetric(bs: Seq<Brick>, a: int, b: int)
    requires
        index_before(bs, a, b),
    ensures
        !index_before(bs, b, a),
        a != b,
{
}

fn is_before(bricks: &[Brick], a: usize, b: usize) -> (r: bool)
    requires
        a < bricks@.len(),
        b < bricks@.len(),
    ensures
        r == index_before(bricks@, a as int, b as int),
{
    match brick_cmp(&bricks[a], &bricks[b]) {
        std::cmp::Ordering::Less => true,
        std::cmp::Ordering::Equal => a < b,
        std::cmp::Ordering::Greater => false,
    }
}

/// The order in which the bricks settle: by lower end, then upper end
/// (each by z, then x, then y), then by position in the input.
pub fn settle_order(bricks: &[Brick]) -> (ord: Vec<usize>)
    ensures
        is_settle_order(bricks@, ord@),
{
    let mut ord: Vec<usize> = Vec::new();
    let mut i: usize = 0;
    while i < bricks.len()
        invariant
            0 <= i <= bricks@.len(),
            ord@.len() == i,
            forall|a: int| 0 <= a < ord@.len() ==> #[trigger] ord@[a] < i,
            forall|a: int, b: int|
                0 <= a < b < ord@.len() ==> index_before(bricks@, ord@[a] as int, ord@[b] as int),
            forall|v: usize| v < i ==> #[trigger] ord@.contains(v),
        decreases bricks@.len() - i,
    {
        let mut p: usize = 0;
        loop
            invariant
                0 <= p <= ord@.len(),
                ord@.len() == i,
                i < bricks@.len(),
                forall|a: int| 0 <= a < ord@.len() ==> #[trigger] ord@[a] < i,
                forall|a: int| 0 <= a < p ==> index_before(bricks@, #[trigger] ord@[a] as int, i as int),
            ensures
                0 <= p <= ord@.len(),
                forall|a: int| 0 <= a < p ==> index_before(bricks@, #[trigger] ord@[a] as int, i as int),
                p < ord@.len() ==> !index_before(bricks@, ord@[p as int] as int, i as int),
            decreases ord@.len() - p,
        {
            if p == ord.len() {
                break;
            }
            if !is_before(bricks, ord[p], i) {
                break;
            }
            p = p + 1;
        }
        let ghost before = ord@;
        proof {
            if p < before.len() {
                lemma_index_before_total(bricks@, before[p as int] as int, i as int);
            }
        }
        ord.insert(p, i);
        assert(ord@ == before.insert(p as int, i));
        assert forall|a: int, b: int| 0 <= a < b < ord@.len() implies index_before(
            bricks@,
            ord@[a] as int,
            ord@[b] as int,
        ) by {
            if b < p {
            } else if b == p {
            } else if a < p {
                // ord[a] < i < ord[b]
                assert(index_before(bricks@, before[a] as int, i as int));
                if b - 1 > p {
                    assert(index_before(bricks@, before[p as int] as int, before[b - 1] as int));
                    lemma_index_before_transitive(
                        bricks@,
                        i as int,
                        before[p as int] as int,
                        before[b - 1] as int,
                    );
                }
                lemma_index_before_transitive(bricks@, before[a] as int, i as int, ord@[b] as int);
            } else if a == p {
                if b - 1 > p {
                    assert(index_before(bricks@, before[p as int] as int, before[b - 1] as int));
                    lemma_index_before_transitive(
                        bricks@,
                        i as int,
                        before[p as int] as int,
                        before[b - 1] as int,
                    );
                }
            } else {
                assert(ord@[a] == before[a - 1]);
                assert(ord@[b] == before[b - 1]);
            }
        }
        assert forall|v: usize| v < i + 1 implies #[trigger] ord@.contains(v) by {
            if v == i {
                assert(ord@[p as int] == i);
            } else {
                assert(before.contains(v));
                let a = choose|a: int| 0 <= a < before.len() && before[a] == v;
                if a < p {
                    assert(ord@[a] == v);
                } else {
                    assert(ord@[a + 1] == v);
                }
            }
        }
        i = i + 1;
    }
    ord
}

// ---------------------------------------------------------------------------
// The tallest supporters under a footprint.
// ---------------------------------------------------------------------------

/// The owners named by an optional index: none, or that one.
pub open spec fn owner_set(ix: Option<usize>) -> Set<usize> {
    match ix {
        Some(i) => set![i],
        None => Set::empty(),
    }
}

/// The index, if any, as a collection of one.
pub fn just(ix: Option<usize>) -> (r: Vec<usize>)
    ensures
        r@.no_duplicates(),
        r@.to_set() == owner_set(ix),
        r@ == match ix {
            Some(i) => seq![i],
            None => Seq::<usize>::empty(),
        },
{
    let mut result: Vec<usize> = Vec::new();
    if let Some(i) = ix {
        result.push(i);
    }
    proof {
        if let Some(i) = ix {
            assert(result@ =~= seq![i]);
            assert(result@.to_set() =~= set![i]) by {
                assert(result@[0] == i);
            }
        } else {
            assert(result@.to_set() =~= Set::<usize>::empty());
        }
    }
    result
}

/// One step of the reduction over the cells of a footprint: keeps the
/// greatest height seen so far and every owner found at that height.
pub fn identify_supporting_bricks(
    acc: Option<(i64, Vec<usize>)>,
    h: i64,
    maybe_index: Option<usize>,
) -> (r: Option<(i64, Vec<usize>)>)
    requires
        acc matches Some((_, v)) ==> v@.no_duplicates(),
    ensures
        r matches Some((rh, rv)) && rv@.no_duplicates() && match acc {
            None => rh == h && rv@.to_set() == owner_set(maybe_index),
            Some((e, v)) => if e < h {
                rh == h && rv@.to_set() == owner_set(maybe_index)
            } else if e == h {
                rh == h && rv@.to_set() == v@.to_set().union(owner_set(maybe_index))
            } else {
                rh == e && rv@ == v@
            },
        },
{
    match acc {
        None => Some((h, just(maybe_index))),
        Some((existing_height, mut bricks)) => {
            if existing_height < h {
                Some((h, just(maybe_index)))
            } else if existing_height == h {
                let ghost before = bricks@;
                if let Some(i) = maybe_index {
                    if !vec_contains(&bricks, i) {
                        bricks.push(i);
                        proof {
                            assert forall|a: int, b: int|
                                0 <= a < b < bricks@.len() implies bricks@[a] != bricks@[b] by {
                                if b == bricks@.len() - 1 {
                                    assert(!before.contains(i));
                                    assert(before[a] == bricks@[a]);
                                }
                            }
                            assert(bricks@ == before.push(i));
                            before.lemma_push_to_set_commute(i);
                        }
                    }
                }
                proof {
                    assert(bricks@.to_set() =~= before.to_set().union(owner_set(maybe_index))) by {
                        if let Some(i) = maybe_index {
                            if before.contains(i) {
                                assert(bricks@ == before);
                            }
                        }
                    }
                }
                Some((h, bricks))
            } else {
                Some((existing_height, bricks))
            }
        },
    }
}

fn vec_contains(v: &Vec<usize>, x: usize) -> (r: bool)
    ensures
        r == v@.contains(x),
{
    let mut i: usize = 0;
    while i < v.len()
        invariant
            0 <= i <= v@.len(),
            forall|k: int| 0 <= k < i ==> v@[k] != x,
        decreases v@.len() - i,
    {
        if v[i] == x {
            assert(v@[i as int] == x);
            return true;
        }
        i = i + 1;
    }
    false
}

/// The surface height at each of `cells` reaches at most `h` and equals it
/// somewhere; the owners at height `h` among `cells` are exactly `owners`.
pub open spec fn tallest_under(
    m: Map<Position, (i64, usize)>,
    cells: Seq<Position>,
    h: int,
    owners: Set<usize>,
) -> bool {
    &&& forall|t: int| 0 <= t < cells.len() ==> height_and_owner(m, #[trigger] cells[t]).0 <= h
    &&& exists|t: int| 0 <= t < cells.len() && height_and_owner(m, #[trigger] cells[t]).0 == h
    &&& forall|o: usize|
        owners.contains(o) <==> exists|t: int|
            0 <= t < cells.len() && #[trigger] height_and_owner(m, cells[t]) == (h as i64, Some(o))
}

/// Reads the surface under every cell of a footprint: the greatest height
/// found there, and every brick that tops a cell at that height.
pub fn scan_footprint(heightmap: &Surface, cells: &Vec<Position>) -> (r: (i64, Vec<usize>))
    requires
        heightmap.wf(),
        cells@.len() > 0,
    ensures
        r.1@.no_duplicates(),
        tallest_under(heightmap@, cells@, r.0 as int, r.1@.to_set()),
{
    let mut acc: Option<(i64, Vec<usize>)> = None;
    let mut t: usize = 0;
    while t < cells.len()
        invariant
            heightmap.wf(),
            0 <= t <= cells@.len(),
            t == 0 <==> acc is None,
            acc matches Some((h, v)) ==> {
                &&& v@.no_duplicates()
                &&& tallest_under(heightmap@, cells@.subrange(0, t as int), h as int, v@.to_set())
            },
        decreases cells@.len() - t,
    {
        let (h, maybe_index) = heightmap.get(&cells[t]);
        let ghost prev = acc;
        acc = identify_supporting_bricks(acc, h, maybe_index);
        proof {
            let m = heightmap@;
            let before = cells@.subrange(0, t as int);
            let after = cells@.subrange(0, t + 1);
            assert(after =~= before.push(cells@[t as int]));
            assert(height_and_owner(m, after[t as int]) == (h, maybe_index));
            let (rh, rv) = acc.unwrap();
            assert forall|o: usize| rv@.to_set().contains(o) <==> exists|s: int|
                0 <= s < after.len() && #[trigger] height_and_owner(m, after[s]) == (
                rh,
                Some(o),
            ) by {
                if rv@.to_set().contains(o) {
                    if maybe_index == Some(o) && rh == h {
                        assert(height_and_owner(m, after[t as int]) == (rh, Some(o)));
                    } else {
                        let (e, v) = prev.unwrap();
                        assert(v@.to_set().contains(o));
                        let s = choose|s: int|
                            0 <= s < before.len() && #[trigger] height_and_owner(m, before[s]) == (
                                e,
                                Some(o),
                            );
                        assert(after[s] == before[s]);
                    }
                }
                if exists|s: int|
                    0 <= s < after.len() && #[trigger] height_and_owner(m, after[s]) == (
                        rh,
                        Some(o),
                    ) {
                    let s = choose|s: int|
                        0 <= s < after.len() && #[trigger] height_and_owner(m, after[s]) == (
                            rh,
                            Some(o),
                        );
                    if s == t {
                        assert(owner_set(maybe_index).contains(o));
                    } else {
                        assert(after[s] == before[s]);
                        let (e, v) = prev.unwrap();
                        assert(height_and_owner(m, before[s]).0 <= e);
                    }
                }
            }
            assert forall|s: int| 0 <= s < after.len() implies height_and_owner(
                m,
                #[trigger] after[s],
            ).0 <= rh by {
                if s < t {
                    assert(after[s] == before[s]);
                }
            }
            if t == 0 {
                assert(height_and_owner(m, after[0]).0 == rh);
            } else {
                let (e, v) = prev.unwrap();
                if e < h {
                    assert(height_and_owner(m, after[t as int]).0 == rh);
                } else {
                    let s = choose|s: int|
                        0 <= s < before.len() && height_and_owner(m, #[trigger] before[s]).0 == e;
                    assert(after[s] == before[s]);
                    assert(height_and_owner(m, after[s]).0 == rh);
                }
            }
        }
        t = t + 1;
    }
    assert(cells@.subrange(0, cells@.len() as int) =~= cells@);
    match acc {
        Some(r) => r,
        None => (0, Vec::new()),
    }
}

// ---------------------------------------------------------------------------
// Facts about the model.
// ---------------------------------------------------------------------------

/// `highest_under` reads only the bricks before `j` and the footprint of
/// brick `k`.
pub proof fn lemma_highest_under_congruent(s1: Seq<Brick>, s2: Seq<Brick>, k1: int, k2: int, j: int)
    requires
        0 <= j <= s1.len(),
        j <= s2.len(),
        0 <= k1 < s1.len(),
        0 <= k2 < s2.len(),
        forall|i: int|
            0 <= i < j ==> s1[i].plan_spec() == s2[i].plan_spec() && s1[i].upper.z == s2[i].upper.z,
        s1[k1].plan_spec() == s2[k2].plan_spec(),
    ensures
        highest_under(s1, k1, j) == highest_under(s2, k2, j),
    decreases j,
{
    if j > 0 {
        lemma_highest_under_congruent(s1, s2, k1, k2, j - 1);
    }
}

/// `highest_under` is the greatest top among the bricks it reads whose
/// footprint meets that of brick `k`, or 0.
pub proof fn lemma_highest_under_is_max(s: Seq<Brick>, k: int, j: int)
    requires
        0 <= j <= s.len(),
        0 <= k < s.len(),
    ensures
        highest_under(s, k, j) >= 0,
        forall|i: int|
            0 <= i < j && overlaps(#[trigger] s[i], s[k]) ==> s[i].upper.z <= highest_under(s, k, j),
        highest_under(s, k, j) == 0 || exists|i: int|
            0 <= i < j && overlaps(#[trigger] s[i], s[k]) && s[i].upper.z == highest_under(s, k, j),
    decreases j,
{
    if j > 0 {
        lemma_highest_under_is_max(s, k, j - 1);
    }
}

/// Two footprints that meet share a cell.
pub proof fn lemma_overlap_cell(a: Brick, b: Brick) -> (c: Position)
    requires
        overlaps(a, b),
    ensures
        a.covers(c),
        b.covers(c),
{
    let pa = a.plan_spec();
    let pb = b.plan_spec();
    Position {
        x: if pa.top_left.x >= pb.top_left.x { pa.top_left.x } else { pb.top_left.x },
        y: if pa.top_left.y >= pb.top_left.y { pa.top_left.y } else { pb.top_left.y },
    }
}

/// The height map records, for each cell, the top of the highest settled
/// brick over it and that brick's position in `out`.
pub open spec fn surface_matches(m: Map<Position, (i64, usize)>, out: Seq<Brick>) -> bool {
    &&& forall|c: Position|
        #[trigger] m.contains_key(c) <==> exists|i: int| 0 <= i < out.len() && #[trigger] out[i].covers(c)
    &&& forall|c: Position| #[trigger]
        m.contains_key(c) ==> {
            &&& m[c].1 < out.len()
            &&& out[m[c].1 as int].covers(c)
            &&& m[c].0 == out[m[c].1 as int].upper.z
            &&& forall|i: int|
                0 <= i < out.len() && i != m[c].1 && #[trigger] out[i].covers(c) ==> out[i].upper.z
                    < m[c].0
        }
}

/// What a scan of the footprint of `b` finds is the level `b` lands on and
/// the bricks it lands on.
proof fn lemma_scan_meets_model(
    m: Map<Position, (i64, usize)>,
    out: Seq<Brick>,
    b: Brick,
    cells: Seq<Position>,
    h: int,
    owners: Set<usize>,
)
    requires
        surface_matches(m, out),
        forall|i: int| 0 <= i < out.len() ==> #[trigger] out[i].upper.z >= 1,
        forall|c: Position| cells.contains(c) <==> b.covers(c),
        cells.len() > 0,
        tallest_under(m, cells, h, owners),
    ensures
        h == highest_under(out.push(b), out.len() as int, out.len() as int),
        forall|o: usize|
            owners.contains(o) <==> (o < out.len() && overlaps(out[o as int], b) && out[o as int].upper.z
                == h),
{
    let x = out.push(b);
    let kk = out.len() as int;
    lemma_highest_under_is_max(x, kk, kk);
    let top = highest_under(x, kk, kk);
    assert forall|t: int| 0 <= t < cells.len() implies height_and_owner(m, #[trigger] cells[t]).0
        <= top && height_and_owner(m, cells[t]).0 >= 0 by {
        let c = cells[t];
        assert(cells.contains(c));
        if m.contains_key(c) {
            let o = m[c].1 as int;
            assert(x[o] == out[o]);
            assert(overlaps(x[o], x[kk]));
        }
    }
    let t0 = choose|t: int| 0 <= t < cells.len() && height_and_owner(m, #[trigger] cells[t]).0 == h;
    assert(h <= top);
    if top > 0 {
        let i = choose|i: int| 0 <= i < kk && overlaps(#[trigger] x[i], x[kk]) && x[i].upper.z == top;
        assert(x[i] == out[i]);
        let c = lemma_overlap_cell(out[i], b);
        assert(cells.contains(c));
        let t = choose|t: int| 0 <= t < cells.len() && cells[t] == c;
        assert(m.contains_key(c));
        assert(height_and_owner(m, cells[t]).0 >= top);
        assert(height_and_owner(m, cells[t]).0 <= h);
    } else {
        assert(height_and_owner(m, cells[0]).0 >= 0);
    }
    assert(h == top);
    assert forall|o: usize| owners.contains(o) <==> (o < out.len() && overlaps(out[o as int], b)
        && out[o as int].upper.z == h) by {
        if owners.contains(o) {
            let t = choose|t: int|
                0 <= t < cells.len() && #[trigger] height_and_owner(m, cells[t]) == (h as i64, Some(o));
            let c = cells[t];
            assert(cells.contains(c));
            assert(m.contains_key(c));
        }
        if o < out.len() && overlaps(out[o as int], b) && out[o as int].upper.z == h {
            let c = lemma_overlap_cell(out[o as int], b);
            assert(cells.contains(c));
            let t = choose|t: int| 0 <= t < cells.len() && cells[t] == c;
            assert(m.contains_key(c));
            assert(m[c].1 == o);
            assert(height_and_owner(m, cells[t]) == (h as i64, Some(o)));
        }
    }
}

/// Appending a brick leaves every support relation among earlier bricks as
/// it was.
proof fn lemma_push_keeps_support(s: Seq<Brick>, x: Brick, j: int, m: int)
    requires
        0 <= m < s.len(),
    ensures
        sole_support(s.push(x), j, m) == sole_support(s, j, m),
{
    let t = s.push(x);
    assert forall|i: int| supports(t, i, m) == supports(s, i, m) by {
        if 0 <= i < m {
            assert(t[i] == s[i]);
            assert(t[m] == s[m]);
        }
    }
    if 0 <= j < m {
        assert(t[j] == s[j]);
        assert(t[m] == s[m]);
    }
}

/// Every top is at most `bound` per brick below and including it, so the
/// level a brick lands on is bounded too.
proof fn lemma_highest_bounded(out: Seq<Brick>, b: Brick, bound: int)
    requires
        bound >= 0,
        forall|m: int| 0 <= m < out.len() ==> 1 <= #[trigger] out[m].upper.z <= (m + 1) * bound,
    ensures
        highest_under(out.push(b), out.len() as int, out.len() as int) <= out.len() * bound,
{
    let x = out.push(b);
    let k = out.len() as int;
    lemma_highest_under_is_max(x, k, k);
    let top = highest_under(x, k, k);
    if top > 0 {
        let i = choose|i: int| 0 <= i < k && overlaps(#[trigger] x[i], x[k]) && x[i].upper.z == top;
        assert(x[i] == out[i]);
        vstd::arithmetic::mul::lemma_mul_inequality(i + 1, k, bound);
    } else {
        vstd::arithmetic::mul::lemma_mul_inequality(0, k, bound);
    }
}

proof fn lemma_level_bound(n: int, h: int, k: int, bound: int, below: int)
    requires
        n > 0,
        h >= 0,
        n * (h + 1) <= i64::MAX,
        bound == i64::MAX as int / n,
        0 <= k < n,
        0 <= below <= k * bound,
    ensures
        below + 1 + h <= (k + 1) * bound,
        (k + 1) * bound <= i64::MAX,
        bound >= 0,
{
    assert((n * (h + 1)) / n == h + 1) by {
        vstd::arithmetic::div_mod::lemma_div_multiples_vanish(h + 1, n);
    }
    vstd::arithmetic::div_mod::lemma_div_is_ordered(n * (h + 1), i64::MAX as int, n);
    assert(h + 1 <= bound);
    vstd::arithmetic::mul::lemma_mul_inequality(k + 1, n, bound);
    assert(n * bound <= i64::MAX) by {
        vstd::arithmetic::div_mod::lemma_fundamental_div_mod(i64::MAX as int, n);
        vstd::arithmetic::mul::lemma_mul_is_commutative(n, bound);
    }
    assert(below + 1 + h <= (k + 1) * bound) by {
        vstd::arithmetic::mul::lemma_mul_is_distributive_add_other_way(bound, k, 1);
    }
}

/// One step of settlement extends the stack as the model says and keeps
/// every level within bounds.
proof fn lemma_step_stack(
    sorted: Seq<Brick>,
    old_fallen: Seq<Brick>,
    brick: Brick,
    settled: Brick,
    k: int,
    bound: int,
)
    requires
        old_fallen.len() == k,
        0 <= k < sorted.len(),
        sorted[k] == brick,
        forall|m: int|
            0 <= m < k ==> lowered_as(
                #[trigger] old_fallen[m],
                sorted[m],
                1 + highest_under(old_fallen, m, m),
            ),
        forall|m: int| 0 <= m < k ==> 1 <= #[trigger] old_fallen[m].upper.z <= (m + 1) * bound,
        settled.plan_spec() == brick.plan_spec(),
        lowered_as(settled, brick, 1 + highest_under(old_fallen.push(brick), k, k)),
        1 <= settled.upper.z <= (k + 1) * bound,
    ensures
        forall|m: int|
            0 <= m < k + 1 ==> lowered_as(
                #[trigger] old_fallen.push(settled)[m],
                sorted[m],
                1 + highest_under(old_fallen.push(settled), m, m),
            ),
        forall|m: int|
            0 <= m < k + 1 ==> 1 <= #[trigger] old_fallen.push(settled)[m].upper.z <= (m + 1) * bound,
{
    let nf = old_fallen.push(settled);
    lemma_highest_under_congruent(nf, old_fallen.push(brick), k, k, k);
    assert forall|m: int| 0 <= m < k + 1 implies lowered_as(
        #[trigger] nf[m],
        sorted[m],
        1 + highest_under(nf, m, m),
    ) by {
        if m < k {
            assert(nf[m] == old_fallen[m]);
            lemma_highest_under_congruent(nf, old_fallen, m, m, m);
        }
    }
    assert forall|m: int| 0 <= m < k + 1 implies 1 <= #[trigger] nf[m].upper.z <= (m + 1)
        * bound by {
        if m < k {
            assert(nf[m] == old_fallen[m]);
        }
    }
}

/// Publishing a settled brick on the height map keeps the map in step with
/// the stack.
proof fn lemma_step_surface(
    before_map: Map<Position, (i64, usize)>,
    after_map: Map<Position, (i64, usize)>,
    old_fallen: Seq<Brick>,
    settled: Brick,
    bbox: crate::grid::BoundingBox,
    cells: Seq<Position>,
    highest: int,
    k: usize,
)
    requires
        old_fallen.len() == k,
        surface_matches(before_map, old_fallen),
        settled.plan_spec() == bbox,
        forall|c: Position| cells.contains(c) <==> bbox.contains(c),
        forall|t: int| 0 <= t < cells.len() ==> height_and_owner(before_map, #[trigger] cells[t]).0 <= highest,
        settled.upper.z > highest,
        forall|p: Position|
            bbox.contains(p) ==> #[trigger] after_map.contains_key(p) && after_map[p] == (
                settled.upper.z,
                k,
            ),
        forall|p: Position|
            !bbox.contains(p) ==> (#[trigger] after_map.contains_key(p) == before_map.contains_key(p)
                && (before_map.contains_key(p) ==> after_map[p] == before_map[p])),
    ensures
        surface_matches(after_map, old_fallen.push(settled)),
{
    let nf = old_fallen.push(settled);
    assert(nf[k as int] == settled);
    assert forall|c: Position| #[trigger] after_map.contains_key(c) <==> exists|i: int|
        0 <= i < nf.len() && #[trigger] nf[i].covers(c) by {
        if after_map.contains_key(c) && !bbox.contains(c) {
            let i = choose|i: int| 0 <= i < old_fallen.len() && #[trigger] old_fallen[i].covers(c);
            assert(nf[i] == old_fallen[i]);
        }
        if bbox.contains(c) {
            assert(nf[k as int].covers(c));
        }
        if exists|i: int| 0 <= i < nf.len() && #[trigger] nf[i].covers(c) {
            let i = choose|i: int| 0 <= i < nf.len() && #[trigger] nf[i].covers(c);
            if i < k {
                assert(nf[i] == old_fallen[i]);
                assert(before_map.contains_key(c));
            }
        }
    }
    assert forall|c: Position| #[trigger] after_map.contains_key(c) implies {
        &&& after_map[c].1 < nf.len()
        &&& nf[after_map[c].1 as int].covers(c)
        &&& after_map[c].0 == nf[after_map[c].1 as int].upper.z
        &&& forall|i: int|
            0 <= i < nf.len() && i != after_map[c].1 && #[trigger] nf[i].covers(c) ==> nf[i].upper.z
                < after_map[c].0
    } by {
        if bbox.contains(c) {
            assert forall|i: int|
                0 <= i < nf.len() && i != after_map[c].1 && #[trigger] nf[i].covers(c) implies nf[i].upper.z
                    < after_map[c].0 by {
                assert(nf[i] == old_fallen[i]);
                assert(old_fallen[i].covers(c));
                assert(before_map.contains_key(c));
                assert(cells.contains(c));
                let t = choose|t: int| 0 <= t < cells.len() && cells[t] == c;
                assert(height_and_owner(before_map, cells[t]).0 <= highest);
            }
        } else {
            assert(before_map.contains_key(c));
            let o = before_map[c].1 as int;
            assert(nf[o] == old_fallen[o]);
            assert forall|i: int|
                0 <= i < nf.len() && i != after_map[c].1 && #[trigger] nf[i].covers(c) implies nf[i].upper.z
                    < after_map[c].0 by {
                if i < k {
                    assert(nf[i] == old_fallen[i]);
                }
            }
        }
    }
}

/// After one step, a brick is load-bearing when it was before, or when it
/// alone holds up the brick just settled.
proof fn lemma_step_support(
    old_fallen: Seq<Brick>,
    brick: Brick,
    settled: Brick,
    supporting: Seq<usize>,
    highest: int,
    sole: bool,
)
    requires
        old_fallen.len() < usize::MAX,
        settled.plan_spec() == brick.plan_spec(),
        settled.lower.z == highest + 1,
        supporting.no_duplicates(),
        forall|o: usize|
            supporting.to_set().contains(o) <==> (o < old_fallen.len() && overlaps(
                old_fallen[o as int],
                brick,
            ) && old_fallen[o as int].upper.z == highest),
        sole == (supporting.len() == 1),
    ensures
        forall|j: int|
            0 <= j < old_fallen.len() + 1 ==> load_bearing(old_fallen.push(settled), j) == ((j
                < old_fallen.len() && load_bearing(old_fallen, j)) || (sole && j == supporting[0])),
{
    let nf = old_fallen.push(settled);
    let k = old_fallen.len() as int;
    let owners = supporting.to_set();
    assert(nf[k] == settled);
    assert forall|o: usize| #[trigger] supports(nf, o as int, k) <==> owners.contains(o) by {
        if o < k {
            assert(nf[o as int] == old_fallen[o as int]);
        }
    }
    assert forall|j: int| sole_support(nf, j, k) <==> (sole && j == supporting[0]) by {
        if sole {
            assert(supporting.contains(supporting[0]));
            assert forall|o: usize| owners.contains(o) implies o == supporting[0] by {
                let q = choose|q: int| 0 <= q < supporting.len() && supporting[q] == o;
            }
            if j == supporting[0] {
                assert(owners.contains(supporting[0]));
                assert(supports(nf, j, k));
                assert forall|i: int| #[trigger] supports(nf, i, k) implies i == j by {
                    assert(supports(nf, (i as usize) as int, k));
                    assert(owners.contains(i as usize));
                }
            }
            if sole_support(nf, j, k) {
                assert(supports(nf, j, k));
            }
        } else if sole_support(nf, j, k) {
            assert(supports(nf, j, k));
            assert(supports(nf, (j as usize) as int, k));
            assert(owners.contains(j as usize));
            assert(supporting.len() >= 2) by {
                assert(supporting.contains(j as usize));
            }
            assert(supporting[0] != supporting[1]);
            assert(supporting.contains(supporting[0]));
            assert(supporting.contains(supporting[1]));
            assert(owners.contains(supporting[0]));
            assert(owners.contains(supporting[1]));
            assert(supports(nf, supporting[0] as int, k));
            assert(supports(nf, supporting[1] as int, k));
            assert(supporting[0] as int == j);
            assert(supporting[1] as int == j);
        }
    }
    assert forall|j: int| 0 <= j < k + 1 implies load_bearing(nf, j) == ((j < k && load_bearing(
        old_fallen,
        j,
    )) || (sole && j == supporting[0])) by {
        if load_bearing(nf, j) {
            let m = choose|m: int| #[trigger] sole_support(nf, j, m);
            if m < k {
                lemma_push_keeps_support(old_fallen, settled, j, m);
            }
        }
        if j < k && load_bearing(old_fallen, j) {
            let m = choose|m: int| #[trigger] sole_support(old_fallen, j, m);
            lemma_push_keeps_support(old_fallen, settled, j, m);
            assert(sole_support(nf, j, m));
        }
        if sole && j == supporting[0] {
            assert(sole_support(nf, j, k));
        }
        if j == k && load_bearing(old_fallen, j) {
            let m = choose|m: int| #[trigger] sole_support(old_fallen, j, m);
        }
    }
}

/// The candidates for removal after one step.
proof fn lemma_step_candidates(
    bs: Seq<Brick>,
    ord: Seq<usize>,
    old_fallen: Seq<Brick>,
    settled: Brick,
    k: int,
    supporting: Seq<usize>,
    sole: bool,
    old_can: Set<usize>,
    new_can: Set<usize>,
)
    requires
        is_settle_order(bs, ord),
        old_fallen.len() == k,
        0 <= k < ord.len(),
        sole ==> 0 <= supporting[0] < k,
        old_can == Set::new(
            |i: usize| exists|j: int| 0 <= j < k && ord[j] == i && !load_bearing(old_fallen, j),
        ),
        sole ==> new_can == old_can.insert(ord[k]).remove(ord[supporting[0] as int]),
        !sole ==> new_can == old_can.insert(ord[k]),
        forall|j: int|
            0 <= j < k + 1 ==> #[trigger] load_bearing(old_fallen.push(settled), j) == ((j < k
                && load_bearing(old_fallen, j)) || (sole && j == supporting[0] as int)),
    ensures
        new_can == Set::new(
            |i: usize|
                exists|j: int|
                    0 <= j < k + 1 && ord[j] == i && !load_bearing(old_fallen.push(settled), j),
        ),
{
    let nf = old_fallen.push(settled);
    let target = Set::new(
        |i: usize| exists|j: int| 0 <= j < k + 1 && ord[j] == i && !load_bearing(nf, j),
    );
    assert forall|i: usize| new_can.contains(i) <==> target.contains(i) by {
        if new_can.contains(i) {
            if i == ord[k] && !(exists|j: int| 0 <= j < k && ord[j] == i && !load_bearing(old_fallen, j)) {
                if load_bearing(nf, k) {
                    assert(sole && k == supporting[0]);
                }
                assert(0 <= k < k + 1 && ord[k] == i && !load_bearing(nf, k));
            } else {
                let j = choose|j: int| 0 <= j < k && ord[j] == i && !load_bearing(old_fallen, j);
                if sole && j == supporting[0] {
                    assert(i == ord[supporting[0] as int]);
                }
                assert(0 <= j < k + 1 && ord[j] == i && !load_bearing(nf, j));
            }
        }
        if target.contains(i) {
            let j = choose|j: int| 0 <= j < k + 1 && ord[j] == i && !load_bearing(nf, j);
            if sole {
                let s0 = supporting[0] as int;
                if i == ord[s0] {
                    assert(0 <= s0 < k + 1);
                    assert(load_bearing(old_fallen.push(settled), s0) == ((s0 < k && load_bearing(
                        old_fallen,
                        s0,
                    )) || (sole && s0 == supporting[0])));
                    assert(load_bearing(nf, s0));
                    assert(j != s0);
                    if j < s0 {
                        lemma_index_before_asymmetric(bs, ord[j] as int, ord[s0] as int);
                    } else {
                        lemma_index_before_asymmetric(bs, ord[s0] as int, ord[j] as int);
                    }
                }
            }
            if j < k {
                assert(old_can.contains(i));
            }
        }
    }
    assert(new_can =~= target);
}

/// One brick settles: every part of the state moves on as the model says.
#[verifier::rlimit(60)]
proof fn lemma_settle_step(
    bs: Seq<Brick>,
    ord: Seq<usize>,
    sorted: Seq<Brick>,
    bound: int,
    k: usize,
    old_fallen: Seq<Brick>,
    brick: Brick,
    settled: Brick,
    before_map: Map<Position, (i64, usize)>,
    after_map: Map<Position, (i64, usize)>,
    bbox: crate::grid::BoundingBox,
    cells: Seq<Position>,
    highest: int,
    supporting: Seq<usize>,
    sole: bool,
    old_can: Set<usize>,
    new_can: Set<usize>,
)
    requires
        is_settle_order(bs, ord),
        old_fallen.len() == k,
        k < usize::MAX,
        0 <= k < sorted.len(),
        k < ord.len(),
        sorted[k as int] == brick,
        bbox == brick.plan_spec(),
        forall|m: int|
            0 <= m < k ==> lowered_as(
                #[trigger] old_fallen[m],
                sorted[m],
                1 + highest_under(old_fallen, m, m),
            ),
        forall|m: int| 0 <= m < k ==> 1 <= #[trigger] old_fallen[m].upper.z <= (m + 1) * bound,
        settled.plan_spec() == brick.plan_spec(),
        lowered_as(settled, brick, 1 + highest),
        highest == highest_under(old_fallen.push(brick), k as int, k as int),
        1 <= settled.upper.z <= (k + 1) * bound,
        surface_matches(before_map, old_fallen),
        forall|c: Position| cells.contains(c) <==> bbox.contains(c),
        tallest_under(before_map, cells, highest, supporting.to_set()),
        settled.upper.z > highest,
        forall|p: Position|
            bbox.contains(p) ==> #[trigger] after_map.contains_key(p) && after_map[p] == (
                settled.upper.z,
                k,
            ),
        forall|p: Position|
            !bbox.contains(p) ==> (#[trigger] after_map.contains_key(p) == before_map.contains_key(p)
                && (before_map.contains_key(p) ==> after_map[p] == before_map[p])),
        supporting.no_duplicates(),
        forall|o: usize|
            supporting.to_set().contains(o) <==> (o < old_fallen.len() && overlaps(
                old_fallen[o as int],
                brick,
            ) && old_fallen[o as int].upper.z == highest),
        sole == (supporting.len() == 1),
        sole ==> 0 <= supporting[0] < k,
        old_can == Set::new(
            |i: usize| exists|j: int| 0 <= j < k && ord[j] == i && !load_bearing(old_fallen, j),
        ),
        sole ==> new_can == old_can.insert(ord[k as int]).remove(ord[supporting[0] as int]),
        !sole ==> new_can == old_can.insert(ord[k as int]),
    ensures
        forall|m: int|
            0 <= m < k + 1 ==> lowered_as(
                #[trigger] old_fallen.push(settled)[m],
                sorted[m],
                1 + highest_under(old_fallen.push(settled), m, m),
            ),
        forall|m: int|
            0 <= m < k + 1 ==> 1 <= #[trigger] old_fallen.push(settled)[m].upper.z <= (m + 1) * bound,
        surface_matches(after_map, old_fallen.push(settled)),
        new_can == Set::new(
            |i: usize|
                exists|j: int|
                    0 <= j < k + 1 && ord[j] == i && !load_bearing(old_fallen.push(settled), j),
        ),
{
    assert forall|t: int| 0 <= t < cells.len() implies height_and_owner(
        before_map,
        #[trigger] cells[t],
    ).0 <= highest by {}
    lemma_step_stack(sorted, old_fallen, brick, settled, k as int, bound);
    lemma_step_surface(before_map, after_map, old_fallen, settled, bbox, cells, highest, k);
    lemma_step_support(old_fallen, brick, settled, supporting, highest, sole);
    lemma_step_candidates(bs, ord, old_fallen, settled, k as int, supporting, sole, old_can, new_can);
}

// ---------------------------------------------------------------------------
// The settlement engine.
// ---------------------------------------------------------------------------

/// Every brick has its lower end not above its upper end, and a stack of as
/// many bricks as there are, each as tall as any one of them, fits in i64.
pub open spec fn stack_fits(bs: Seq<Brick>) -> bool {
    forall|i: int|
        0 <= i < bs.len() ==> #[trigger] bs[i].wf() && bs.len() * (bs[i].height() + 1) <= i64::MAX
}

fn copy_label(label: &Option<String>) -> (r: Option<String>)
    ensures
        r == *label,
{
    match label {
        Some(s) => Some(s.clone()),
        None => None,
    }
}

/// Drops the bricks one at a time in order of settlement, each until it
/// rests on the ground (level 1) or on a brick already settled under it.
/// Returns the settled bricks, in order of settlement, and the indices (into
/// `bricks`) of those that no brick rests on alone.
#[verifier::rlimit(60)]
pub fn compute_fallen_brick_positions(bricks: &[Brick]) -> (r: (Vec<Brick>, HashSet<usize>))
    requires
        stack_fits(bricks@),
    ensures
        exists|ord: Seq<usize>|
            {
                &&& is_settle_order(bricks@, ord)
                &&& settled_stack(reorder(bricks@, ord), r.0@)
                &&& r.1@ == removable(ord, r.0@)
            },
{
    let n = bricks.len();
    let ord = settle_order(bricks);
    let ghost sorted = reorder(bricks@, ord@);
    let ghost bound: int = if n > 0 {
        i64::MAX as int / n as int
    } else {
        0
    };
    let mut fallen: Vec<Brick> = Vec::new();
    let mut can_disintegrate: HashSet<usize> = HashSet::new();
    let mut heightmap = Surface::new();
    let mut k: usize = 0;
    proof {
        assert(can_disintegrate@ =~= Set::new(
            |i: usize|
                exists|j: int|
                    0 <= j < k && ord@[j] == i && !load_bearing(fallen@, j),
        ));
    }
    while k < n
        invariant
            n == bricks@.len(),
            stack_fits(bricks@),
            is_settle_order(bricks@, ord@),
            sorted == reorder(bricks@, ord@),
            n > 0 ==> bound == i64::MAX as int / n as int,
            0 <= k <= n,
            fallen@.len() == k,
            forall|m: int|
                0 <= m < k ==> lowered_as(
                    #[trigger] fallen@[m],
                    sorted[m],
                    1 + highest_under(fallen@, m, m),
                ),
            forall|m: int|
                0 <= m < k ==> 1 <= #[trigger] fallen@[m].upper.z <= (m + 1) * bound,
            heightmap.wf(),
            surface_matches(heightmap@, fallen@),
            can_disintegrate@ == Set::new(
                |i: usize|
                    exists|j: int| 0 <= j < k && ord@[j] == i && !load_bearing(fallen@, j),
            ),
        decreases n - k,
    {
        let index = ord[k];
        let ghost old_can = can_disintegrate@;
        can_disintegrate.insert(index);
        let brick = &bricks[index];
        assert(sorted[k as int] == bricks@[index as int]);
        assert(bricks@[index as int].wf());
        let bbox = brick.plan();
        let cells = bbox.surface();
        assert(bbox.contains(bbox.top_left));
        assert(cells@.contains(bbox.top_left));
        let (highest_ground, supporting) = scan_footprint(&heightmap, &cells);
        proof {
            lemma_scan_meets_model(
                heightmap@,
                fallen@,
                *brick,
                cells@,
                highest_ground as int,
                supporting@.to_set(),
            );
            lemma_highest_bounded(fallen@, *brick, bound);
            lemma_level_bound(n as int, brick.height(), k as int, bound, highest_ground as int);
        }
        let resting_z = highest_ground + 1;
        let top = resting_z + (brick.upper.z - brick.lower.z);
        let settled = Brick {
            lower: Position3 { z: resting_z, ..brick.lower },
            upper: Position3 { z: top, ..brick.upper },
            label: copy_label(&brick.label),
        };
        let ghost before_map = heightmap@;
        heightmap.set_height(&bbox, top, k);
        let ghost old_fallen = fallen@;
        let sole = supporting.len() == 1;
        if sole {
            assert(supporting@.to_set().contains(supporting@[0]));
            can_disintegrate.remove(&ord[supporting[0]]);
        }
        fallen.push(settled);
        proof {
            lemma_settle_step(
                bricks@,
                ord@,
                sorted,
                bound,
                k,
                old_fallen,
                *brick,
                settled,
                before_map,
                heightmap@,
                bbox,
                cells@,
                highest_ground as int,
                supporting@,
                sole,
                old_can,
                can_disintegrate@,
            );
            assert(fallen@ == old_fallen.push(settled));
        }
        k = k + 1;
    }
    proof {
        assert(settled_stack(sorted, fallen@));
        assert(can_disintegrate@ =~= removable(ord@, fallen@));
    }
    (fallen, can_disintegrate)
}

/// How many bricks could be taken away, once all have settled, without any
/// other brick losing all of its support.
pub fn part1(bricks: &[Brick]) -> (r: usize)
    requires
        stack_fits(bricks@),
    ensures
        exists|ord: Seq<usize>, out: Seq<Brick>|
            {
                &&& is_settle_order(bricks@, ord)
                &&& settled_stack(reorder(bricks@, ord), out)
                &&& r == removable(ord, out).len()
            },
{
    let (fallen, can_disintegrate) = compute_fallen_brick_positions(bricks);
    can_disintegrate.len()
}

} // verus!
