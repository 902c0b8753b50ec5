//! The height map that settled bricks build up on the ground plane.

use vstd::prelude::*;

use crate::grid::{BoundingBox, Position};

verus! {

/// A sparse height map of the ground plane: for each cell that some settled
/// brick covers, the highest level occupied there and the brick that
/// occupies it. A cell without an entry is bare ground at height 0.
pub struct Surface {
    cells: Vec<(Position, i64, usize)>,
    model: Ghost<Map<Position, (i64, usize)>>,
}

impl View for Surface {
    type V = Map<Position, (i64, usize)>;

    closed spec fn view(&self) -> Map<Position, (i64, usize)> {
        self.model@
    }
}

/// What `get` reports for a cell of a height map.
pub open spec fn height_and_owner(m: Map<Position, (i64, usize)>, p: Position) -> (
    i64,
    Option<usize>,
) {
    if m.contains_key(p) {
        (m[p].0, Some(m[p].1))
    } else {
        (0, None)
    }
}

spec fn among_first(cells: Seq<Position>, k: int, p: Position) -> bool {
    exists|i: int| 0 <= i < k && cells[i] == p
}

/// `start` with the first `k` cells of `cells` set to `(z, index)`.
spec fn painted(
    start: Map<Position, (i64, usize)>,
    cells: Seq<Position>,
    k: int,
    z: i64,
    index: usize,
) -> Map<Position, (i64, usize)> {
    start.union_prefer_right(Map::new(|p: Position| among_first(cells, k, p), |p: Position| (z, index)))
}

impl Surface {
    /// The entries and the model agree, one entry per cell.
    pub closed spec fn wf(&self) -> bool {
        &&& forall|i: int, j: int|
            0 <= i < j < self.cells@.len() ==> self.cells@[i].0 != self.cells@[j].0
        &&& forall|i: int|
            0 <= i < self.cells@.len() ==> self.model@.contains_key(#[trigger] self.cells@[i].0)
                && self.model@[self.cells@[i].0] == (self.cells@[i].1, self.cells@[i].2)
        &&& forall|p: Position|
            #[trigger] self.model@.contains_key(p) ==> exists|i: int|
                0 <= i < self.cells@.len() && #[trigger] self.cells@[i].0 == p
    }

    /// Bare ground everywhere.
    pub fn new() -> (r: Surface)
        ensures
            r.wf(),
            r@ == Map::<Position, (i64, usize)>::empty(),
    {
        Surface { cells: Vec::new(), model: Ghost(Map::empty()) }
    }

    fn find(&self, pos: &Position) -> (r: Option<usize>)
        requires
            self.wf(),
        ensures
            r matches Some(i) ==> i < self.cells@.len() && self.cells@[i as int].0 == *pos,
            r is None ==> !self@.contains_key(*pos),
    {
        let mut i: usize = 0;
        while i < self.cells.len()
            invariant
                self.wf(),
                0 <= i <= self.cells@.len(),
                forall|k: int| 0 <= k < i ==> self.cells@[k].0 != *pos,
            decreases self.cells@.len() - i,
        {
            if self.cells[i].0 == *pos {
                return Some(i);
            }
            i = i + 1;
        }
        None
    }

    /// The height at `pos` and the brick occupying it: `(0, None)` for bare
    /// ground.
    pub fn get(&self, pos: &Position) -> (r: (i64, Option<usize>))
        requires
            self.wf(),
        ensures
            r == height_and_owner(self@, *pos),
    {
        match self.find(pos) {
            Some(i) => (self.cells[i].1, Some(self.cells[i].2)),
            None => (0, None),
        }
    }

    /// Records that brick `index` now tops every cell of `bbox` at height
    /// `z`. Every cell of the box must be lower than `z` beforehand: a brick
    /// never comes to rest inside or below another.
    pub fn set_height(&mut self, bbox: &BoundingBox, z: i64, index: usize)
        requires
            old(self).wf(),
            forall|p: Position|
                bbox.contains(p) && old(self)@.contains_key(p) ==> old(self)@[p].0 < z,
        ensures
            final(self).wf(),
            forall|p: Position|
                bbox.contains(p) ==> #[trigger] final(self)@.contains_key(p) && final(self)@[p] == (
                z,
                index,
            ),
            forall|p: Position|
                !bbox.contains(p) ==> (#[trigger] final(self)@.contains_key(p)
                    == old(self)@.contains_key(p) && (old(self)@.contains_key(p) ==> final(self)@[p]
                    == old(self)@[p])),
            // heights only ever grow
            forall|p: Position| #[trigger]
                old(self)@.contains_key(p) ==> final(self)@.contains_key(p) && final(self)@[p].0
                    >= old(self)@[p].0,
    {
        let cells = bbox.surface();
        let ghost start = self@;
        let mut k: usize = 0;
        while k < cells.len()
            invariant
                self.wf(),
                0 <= k <= cells@.len(),
                forall|p: Position| cells@.contains(p) <==> bbox.contains(p),
                forall|i: int, j: int|
                    0 <= i < j < cells@.len() ==> crate::grid::cell_before(cells@[i], cells@[j]),
                self@ == painted(start, cells@, k as int, z, index),
            decreases cells@.len() - k,
        {
            let pos = cells[k];
            let ghost old_cells = self.cells@;
            let ghost old_model = self@;
            let ghost mut at: int = 0;
            match self.find(&pos) {
                Some(i) => {
                    self.cells.set(i, (pos, z, index));
                    proof {
                        at = i as int;
                    }
                },
                None => {
                    self.cells.push((pos, z, index));
                    proof {
                        at = old_cells.len() as int;
                    }
                },
            }
            self.model = Ghost(self.model@.insert(pos, (z, index)));
            assert(self.cells@[at].0 == pos);
            assert forall|p: Position| #[trigger] self.model@.contains_key(p) implies exists|i: int|
                0 <= i < self.cells@.len() && #[trigger] self.cells@[i].0 == p by {
                if p != pos {
                    assert(old_model.contains_key(p));
                    let j = choose|j: int| 0 <= j < old_cells.len() && old_cells[j].0 == p;
                    assert(self.cells@[j].0 == p);
                }
            }
            assert(painted(start, cells@, k + 1, z, index) =~= painted(start, cells@, k as int, z, index).insert(pos, (z, index))) by {
                assert forall|p: Position| among_first(cells@, k + 1, p) <==> (among_first(cells@, k as int, p) || p == pos) by {
                    if among_first(cells@, k + 1, p) && p != pos {
                        let i = choose|i: int| 0 <= i < k + 1 && cells@[i] == p;
                        assert(0 <= i < k && cells@[i] == p);
                    }
                    if among_first(cells@, k as int, p) {
                        let i = choose|i: int| 0 <= i < k && cells@[i] == p;
                        assert(0 <= i < k + 1 && cells@[i] == p);
                    }
                    if p == pos {
                        assert(0 <= k < k + 1 && cells@[k as int] == p);
                    }
                }
            }
            k = k + 1;
        }
        assert forall|p: Position| #[trigger] among_first(cells@, cells@.len() as int, p) <==> bbox.contains(p) by {
            if bbox.contains(p) {
                assert(cells@.contains(p));
                let i = choose|i: int| 0 <= i < cells@.len() && cells@[i] == p;
            }
            if among_first(cells@, cells@.len() as int, p) {
                let i = choose|i: int| 0 <= i < cells@.len() && cells@[i] == p;
                assert(cells@.contains(p));
            }
        }
        assert forall|p: Position| !bbox.contains(p) implies (#[trigger] self@.contains_key(p)
            == start.contains_key(p) && (start.contains_key(p) ==> self@[p] == start[p])) by {
            assert(!among_first(cells@, cells@.len() as int, p));
        }
    }
}

impl Default for Surface {
    fn default() -> (r: Surface)
        ensures
            r.wf(),
            r@ == Map::<Position, (i64, usize)>::empty(),
    {
        Surface::new()
    }
}

} // verus!
