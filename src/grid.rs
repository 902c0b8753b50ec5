//! Cells, directions and boxes of a 2-D grid.

use vstd::prelude::*;

verus! {

/// One of the four directions of movement on a grid whose y axis points south.
#[derive(Clone, Copy, PartialEq, Eq, Structural, Hash, PartialOrd, Ord, Debug)]
pub enum CompassDirection {
    North,
    South,
    West,
    East,
}

impl CompassDirection {
    /// The opposite direction.
    pub fn reversed(&self) -> (r: CompassDirection)
        ensures
            r == match *self {
                CompassDirection::North => CompassDirection::South,
                CompassDirection::South => CompassDirection::North,
                CompassDirection::East => CompassDirection::West,
                CompassDirection::West => CompassDirection::East,
            },
    {
        match self {
            CompassDirection::North => CompassDirection::South,
            CompassDirection::South => CompassDirection::North,
            CompassDirection::East => CompassDirection::West,
            CompassDirection::West => CompassDirection::East,
        }
    }
}

/// The initial of a direction.
pub open spec fn direction_char(d: CompassDirection) -> char {
    match d {
        CompassDirection::North => 'N',
        CompassDirection::East => 'E',
        CompassDirection::South => 'S',
        CompassDirection::West => 'W',
    }
}

impl From<CompassDirection> for char {
    fn from(d: CompassDirection) -> (r: char)
        ensures
            r == direction_char(d),
    {
        match d {
            CompassDirection::North => 'N',
            CompassDirection::East => 'E',
            CompassDirection::South => 'S',
            CompassDirection::West => 'W',
        }
    }
}

impl vstd::std_specs::convert::FromSpecImpl<CompassDirection> for char {
    open spec fn obeys_from_spec() -> bool {
        true
    }

    open spec fn from_spec(d: CompassDirection) -> char {
        direction_char(d)
    }
}

/// A cell of the ground plane (or of any 2-D grid).
#[derive(Clone, Copy, PartialEq, Eq, Structural, Hash, PartialOrd, Ord, Debug)]
pub struct Position {
    pub x: i64,
    pub y: i64,
}

/// The step that one move in direction `d` makes, as (dx, dy).
pub open spec fn step_of(d: CompassDirection) -> (int, int) {
    match d {
        CompassDirection::North => (0, -1),
        CompassDirection::South => (0, 1),
        CompassDirection::East => (1, 0),
        CompassDirection::West => (-1, 0),
    }
}

/// `a` comes strictly before `b` when cells are read column by column.
pub open spec fn cell_before(a: Position, b: Position) -> bool {
    a.x < b.x || (a.x == b.x && a.y < b.y)
}

pub open spec fn abs_int(v: int) -> int {
    if v < 0 {
        -v
    } else {
        v
    }
}

pub open spec fn manhattan_spec(a: Position, b: Position) -> int {
    abs_int(a.x - b.x) + abs_int(a.y - b.y)
}

impl Position {
    /// The neighbouring cell in direction `d`.
    pub fn move_direction(&self, d: &CompassDirection) -> (r: Position)
        requires
            i64::MIN < self.x + step_of(*d).0 <= i64::MAX,
            i64::MIN < self.y + step_of(*d).1 <= i64::MAX,
        ensures
            r.x == self.x + step_of(*d).0,
            r.y == self.y + step_of(*d).1,
    {
        match d {
            CompassDirection::North => Position { y: self.y - 1, ..*self },
            CompassDirection::South => Position { y: self.y + 1, ..*self },
            CompassDirection::East => Position { x: self.x + 1, ..*self },
            CompassDirection::West => Position { x: self.x - 1, ..*self },
        }
    }

    /// The east-west direction in which `self` lies from `to`, if they are in
    /// the same column (`None`) or in adjacent columns; an error otherwise.
    pub fn neighbour_xbearing(&self, to: &Position) -> (r: Result<Option<CompassDirection>, String>)
        ensures
            self.x - to.x == -1 <==> r == Ok::<Option<CompassDirection>, String>(Some(CompassDirection::West)),
            self.x - to.x == 0 <==> r == Ok::<Option<CompassDirection>, String>(None),
            self.x - to.x == 1 <==> r == Ok::<Option<CompassDirection>, String>(Some(CompassDirection::East)),
            abs_int(self.x - to.x) > 1 <==> r.is_err(),
    {
        if self.x == to.x {
            Ok(None)
        } else if to.x < i64::MAX && self.x == to.x + 1 {
            Ok(Some(CompassDirection::East))
        } else if to.x > i64::MIN && self.x == to.x - 1 {
            Ok(Some(CompassDirection::West))
        } else {
            Err(String::from_str("x-coordinates are too far apart"))
        }
    }

    /// The north-south direction in which `self` lies from `to`, if they are in
    /// the same row (`None`) or in adjacent rows; an error otherwise.
    pub fn neighbour_ybearing(&self, to: &Position) -> (r: Result<Option<CompassDirection>, String>)
        ensures
            self.y - to.y == -1 <==> r == Ok::<Option<CompassDirection>, String>(Some(CompassDirection::North)),
            self.y - to.y == 0 <==> r == Ok::<Option<CompassDirection>, String>(None),
            self.y - to.y == 1 <==> r == Ok::<Option<CompassDirection>, String>(Some(CompassDirection::South)),
            abs_int(self.y - to.y) > 1 <==> r.is_err(),
    {
        if self.y == to.y {
            Ok(None)
        } else if to.y < i64::MAX && self.y == to.y + 1 {
            Ok(Some(CompassDirection::South))
        } else if to.y > i64::MIN && self.y == to.y - 1 {
            Ok(Some(CompassDirection::North))
        } else {
            Err(String::from_str("y-coordinates are too far apart"))
        }
    }
}

/// Lowers `min` to `val` if `val` is smaller, or sets it if it was unset.
pub fn maybe_update_min(min: &mut Option<i64>, val: i64)
    ensures
        *final(min) == match *old(min) {
            None => Some(val),
            Some(v) => Some(if val < v { val } else { v }),
        },
{
    match min {
        None => {
            *min = Some(val);
        },
        Some(v) => {
            if *v > val {
                *min = Some(val);
            }
        },
    }
}

/// Raises `max` to `val` if `val` is larger, or sets it if it was unset.
pub fn maybe_update_max(max: &mut Option<i64>, val: i64)
    ensures
        *final(max) == match *old(max) {
            None => Some(val),
            Some(v) => Some(if val > v { val } else { v }),
        },
{
    match max {
        None => {
            *max = Some(val);
        },
        Some(v) => {
            if *v < val {
                *max = Some(val);
            }
        },
    }
}

/// Lowers `min` to `val` if `val` is smaller.
pub fn update_min(min: &mut i64, val: i64)
    ensures
        *final(min) == if val < *old(min) { val } else { *old(min) },
{
    if val < *min {
        *min = val;
    }
}

/// Raises `max` to `val` if `val` is larger.
pub fn update_max(max: &mut i64, val: i64)
    ensures
        *final(max) == if val > *old(max) { val } else { *old(max) },
{
    if val > *max {
        *max = val;
    }
}

/// An axis-aligned rectangle of cells, both corners included.
#[derive(Clone, Copy, PartialEq, Eq, Structural, Hash, Debug)]
pub struct BoundingBox {
    pub top_left: Position,
    pub bottom_right: Position,
}

impl BoundingBox {
    pub open spec fn contains(self, p: Position) -> bool {
        &&& self.top_left.x <= p.x <= self.bottom_right.x
        &&& self.top_left.y <= p.y <= self.bottom_right.y
    }

    /// Every cell of the box, column by column, each once.
    pub fn surface(&self) -> (r: Vec<Position>)
        ensures
            forall|p: Position| r@.contains(p) <==> self.contains(p),
            forall|i: int, j: int| 0 <= i < j < r@.len() ==> cell_before(r@[i], r@[j]),
    {
        let mut r: Vec<Position> = Vec::new();
        if self.top_left.x > self.bottom_right.x || self.top_left.y > self.bottom_right.y {
            return r;
        }
        let mut x: i128 = self.top_left.x as i128;
        while x <= self.bottom_right.x as i128
            invariant
                self.top_left.x <= x <= self.bottom_right.x + 1,
                self.top_left.y <= self.bottom_right.y,
                forall|p: Position|
                    r@.contains(p) <==> (self.contains(p) && p.x < x),
                forall|i: int, j: int| 0 <= i < j < r@.len() ==> cell_before(r@[i], r@[j]),
                forall|i: int| 0 <= i < r@.len() ==> r@[i].x < x,
            decreases self.bottom_right.x + 1 - x,
        {
            let mut y: i128 = self.top_left.y as i128;
            while y <= self.bottom_right.y as i128
                invariant
                    self.top_left.x <= x <= self.bottom_right.x,
                    self.top_left.y <= y <= self.bottom_right.y + 1,
                    forall|p: Position|
                        r@.contains(p) <==> (self.contains(p) && (p.x < x || (p.x == x && p.y
                            < y))),
                    forall|i: int, j: int| 0 <= i < j < r@.len() ==> cell_before(r@[i], r@[j]),
                    forall|i: int|
                        0 <= i < r@.len() ==> (r@[i].x < x || (r@[i].x == x && r@[i].y < y)),
                decreases self.bottom_right.y + 1 - y,
            {
                let p = Position { x: x as i64, y: y as i64 };
                let ghost before = r@;
                r.push(p);
                assert(forall|q: Position| r@.contains(q) <==> (before.contains(q) || q == p)) by {
                    assert forall|q: Position| r@.contains(q) implies (before.contains(q) || q
                        == p) by {
                        let i = choose|i: int| 0 <= i < r@.len() && r@[i] == q;
                        if i < before.len() {
                            assert(before[i] == q);
                        }
                    }
                    assert forall|q: Position| before.contains(q) implies r@.contains(q) by {
                        let i = choose|i: int| 0 <= i < before.len() && before[i] == q;
                        assert(r@[i] == q);
                    }
                    assert(r@[r@.len() - 1] == p);
                }
                y = y + 1;
            }
            x = x + 1;
        }
        r
    }
}

/// The smallest box holding every point, or `None` when there are none.
pub fn bounds(points: &[Position]) -> (r: Option<BoundingBox>)
    ensures
        points@.len() == 0 <==> r.is_none(),
        r matches Some(b) ==> {
            &&& forall|i: int| 0 <= i < points@.len() ==> b.contains(#[trigger] points@[i])
            &&& exists|i: int| 0 <= i < points@.len() && b.top_left.x == #[trigger] points@[i].x
            &&& exists|i: int| 0 <= i < points@.len() && b.top_left.y == #[trigger] points@[i].y
            &&& exists|i: int|
                0 <= i < points@.len() && b.bottom_right.x == #[trigger] points@[i].x
            &&& exists|i: int|
                0 <= i < points@.len() && b.bottom_right.y == #[trigger] points@[i].y
        },
{
    let mut min_x: Option<i64> = None;
    let mut max_x: Option<i64> = None;
    let mut min_y: Option<i64> = None;
    let mut max_y: Option<i64> = None;
    let mut k: usize = 0;
    while k < points.len()
        invariant
            0 <= k <= points@.len(),
            k == 0 <==> min_x.is_none(),
            k == 0 <==> max_x.is_none(),
            k == 0 <==> min_y.is_none(),
            k == 0 <==> max_y.is_none(),
            min_x matches Some(v) ==> (forall|i: int| 0 <= i < k ==> v <= #[trigger] points@[i].x)
                && exists|i: int| 0 <= i < k && v == #[trigger] points@[i].x,
            max_x matches Some(v) ==> (forall|i: int| 0 <= i < k ==> v >= #[trigger] points@[i].x)
                && exists|i: int| 0 <= i < k && v == #[trigger] points@[i].x,
            min_y matches Some(v) ==> (forall|i: int| 0 <= i < k ==> v <= #[trigger] points@[i].y)
                && exists|i: int| 0 <= i < k && v == #[trigger] points@[i].y,
            max_y matches Some(v) ==> (forall|i: int| 0 <= i < k ==> v >= #[trigger] points@[i].y)
                && exists|i: int| 0 <= i < k && v == #[trigger] points@[i].y,
        decreases points@.len() - k,
    {
        let p = points[k];
        maybe_update_min(&mut min_x, p.x);
        maybe_update_max(&mut max_x, p.x);
        maybe_update_min(&mut min_y, p.y);
        maybe_update_max(&mut max_y, p.y);
        k = k + 1;
    }
    match (min_x, max_x, min_y, max_y) {
        (Some(xlow), Some(xhigh), Some(ylow), Some(yhigh)) => Some(
            BoundingBox {
                top_left: Position { x: xlow, y: ylow },
                bottom_right: Position { x: xhigh, y: yhigh },
            },
        ),
        _ => None,
    }
}

/// The taxicab distance between two cells.
pub fn manhattan(a: &Position, b: &Position) -> (r: i64)
    requires
        manhattan_spec(*a, *b) <= i64::MAX,
    ensures
        r == manhattan_spec(*a, *b),
{
    let dx: i64 = if a.x >= b.x {
        (a.x as i128 - b.x as i128) as i64
    } else {
        (b.x as i128 - a.x as i128) as i64
    };
    let dy: i64 = if a.y >= b.y {
        (a.y as i128 - b.y as i128) as i64
    } else {
        (b.y as i128 - a.y as i128) as i64
    };
    dx + dy
}

} // verus!
