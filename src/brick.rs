//! Points of 3-D space and bricks, with their footprint and ordering.

use vstd::prelude::*;

use crate::grid::{BoundingBox, Position};

verus! {

/// A cell of 3-D space; z is the height above the ground.
#[derive(Clone, Copy, PartialEq, Eq, Structural, Hash, Debug)]
pub struct Position3 {
    pub x: i64,
    pub y: i64,
    pub z: i64,
}

/// A brick: a run of unit cubes from `lower` to `upper` along one axis (or
/// a single cube), with an optional label that the algorithms ignore.
#[derive(Clone, Debug, Eq)]
pub struct Brick {
    pub lower: Position3,
    pub upper: Position3,
    pub label: Option<String>,
}

pub open spec fn label_view(l: Option<String>) -> Option<Seq<char>> {
    match l {
        Some(s) => Some(s@),
        None => None,
    }
}

pub open spec fn min_int(a: int, b: int) -> int {
    if a <= b {
        a
    } else {
        b
    }
}

pub open spec fn max_int(a: int, b: int) -> int {
    if a >= b {
        a
    } else {
        b
    }
}

/// Strict lexicographic order of two triples.
pub open spec fn triple_lt(a: (int, int, int), b: (int, int, int)) -> bool {
    a.0 < b.0 || (a.0 == b.0 && (a.1 < b.1 || (a.1 == b.1 && a.2 < b.2)))
}

impl Position3 {
    /// The sort key: height first, then x, then y.
    pub open spec fn key(self) -> (int, int, int) {
        (self.z as int, self.x as int, self.y as int)
    }
}

/// `a` sorts before `b`: by lower end, then by upper end, each by z, x, y.
pub open spec fn brick_lt(a: Brick, b: Brick) -> bool {
    triple_lt(a.lower.key(), b.lower.key()) || (a.lower == b.lower && triple_lt(
        a.upper.key(),
        b.upper.key(),
    ))
}

pub open spec fn same_extent(a: Brick, b: Brick) -> bool {
    a.lower == b.lower && a.upper == b.upper
}

impl Brick {
    /// The lower end is not above the upper end.
    pub open spec fn wf(self) -> bool {
        self.lower.z <= self.upper.z
    }

    /// How many levels the brick spans, less one.
    pub open spec fn height(self) -> int {
        self.upper.z - self.lower.z
    }

    /// The footprint of the brick on the ground plane.
    pub open spec fn plan_spec(self) -> BoundingBox {
        BoundingBox {
            top_left: Position {
                x: min_int(self.lower.x as int, self.upper.x as int) as i64,
                y: min_int(self.lower.y as int, self.upper.y as int) as i64,
            },
            bottom_right: Position {
                x: max_int(self.lower.x as int, self.upper.x as int) as i64,
                y: max_int(self.lower.y as int, self.upper.y as int) as i64,
            },
        }
    }

    /// The footprint covers cell `p`.
    pub open spec fn covers(self, p: Position) -> bool {
        self.plan_spec().contains(p)
    }

    /// The same brick moved vertically so that its lower end is at `z`.
    pub open spec fn lowered_to(self, z: int) -> Brick {
        Brick {
            lower: Position3 { z: z as i64, ..self.lower },
            upper: Position3 { z: (z + self.height()) as i64, ..self.upper },
            label: self.label,
        }
    }

    /// A brick between two endpoints given in either order: the one with the
    /// smaller z becomes the lower end.
    pub fn from_endpoints(a: Position3, b: Position3, label: Option<String>) -> (r: Brick)
        ensures
            r.wf(),
            a.z <= b.z ==> r.lower == a && r.upper == b,
            a.z > b.z ==> r.lower == b && r.upper == a,
            r.label == label,
    {
        if a.z <= b.z {
            Brick { lower: a, upper: b, label }
        } else {
            Brick { lower: b, upper: a, label }
        }
    }

    /// The footprint of the brick: its corners with z dropped, min and max
    /// taken per axis.
    pub fn plan(&self) -> (r: BoundingBox)
        ensures
            r == self.plan_spec(),
            r.top_left.x <= r.bottom_right.x,
            r.top_left.y <= r.bottom_right.y,
    {
        let lx = if self.lower.x <= self.upper.x {
            self.lower.x
        } else {
            self.upper.x
        };
        let ly = if self.lower.y <= self.upper.y {
            self.lower.y
        } else {
            self.upper.y
        };
        let hx = if self.lower.x >= self.upper.x {
            self.lower.x
        } else {
            self.upper.x
        };
        let hy = if self.lower.y >= self.upper.y {
            self.lower.y
        } else {
            self.upper.y
        };
        BoundingBox { top_left: Position { x: lx, y: ly }, bottom_right: Position { x: hx, y: hy } }
    }
}

fn triple_cmp(a: &Position3, b: &Position3) -> (r: std::cmp::Ordering)
    ensures
        r == std::cmp::Ordering::Less <==> triple_lt(a.key(), b.key()),
        r == std::cmp::Ordering::Equal <==> a == b,
        r == std::cmp::Ordering::Greater <==> triple_lt(b.key(), a.key()),
{
    if a.z != b.z {
        if a.z < b.z {
            std::cmp::Ordering::Less
        } else {
            std::cmp::Ordering::Greater
        }
    } else if a.x != b.x {
        if a.x < b.x {
            std::cmp::Ordering::Less
        } else {
            std::cmp::Ordering::Greater
        }
    } else if a.y != b.y {
        if a.y < b.y {
            std::cmp::Ordering::Less
        } else {
            std::cmp::Ordering::Greater
        }
    } else {
        std::cmp::Ordering::Equal
    }
}

/// The ordering of bricks by their extent alone (labels are not compared).
pub open spec fn brick_cmp_spec(a: Brick, b: Brick) -> std::cmp::Ordering {
    if brick_lt(a, b) {
        std::cmp::Ordering::Less
    } else if brick_lt(b, a) {
        std::cmp::Ordering::Greater
    } else {
        std::cmp::Ordering::Equal
    }
}

/// Compares two bricks by lower end, then upper end.
pub fn brick_cmp(a: &Brick, b: &Brick) -> (r: std::cmp::Ordering)
    ensures
        r == brick_cmp_spec(*a, *b),
        r == std::cmp::Ordering::Equal <==> same_extent(*a, *b),
{
    match triple_cmp(&a.lower, &b.lower) {
        std::cmp::Ordering::Equal => triple_cmp(&a.upper, &b.upper),
        o => o,
    }
}

impl PartialEq for Brick {
    fn eq(&self, other: &Brick) -> (r: bool)
        ensures
            r == (same_extent(*self, *other) && label_view(self.label) == label_view(
                other.label,
            )),
    {
        let labels_equal = match (&self.label, &other.label) {
            (Some(a), Some(b)) => a.eq(b),
            (None, None) => true,
            _ => false,
        };
        self.lower == other.lower && self.upper == other.upper && labels_equal
    }
}

impl vstd::std_specs::cmp::PartialEqSpecImpl for Brick {
    open spec fn obeys_eq_spec() -> bool {
        true
    }

    open spec fn eq_spec(&self, other: &Brick) -> bool {
        same_extent(*self, *other) && label_view(self.label) == label_view(other.label)
    }
}

impl PartialOrd for Brick {
    fn partial_cmp(&self, other: &Brick) -> (r: Option<std::cmp::Ordering>)
        ensures
            r == Some(brick_cmp_spec(*self, *other)),
    {
        Some(brick_cmp(self, other))
    }
}

impl vstd::std_specs::cmp::PartialOrdSpecImpl for Brick {
    open spec fn obeys_partial_cmp_spec() -> bool {
        true
    }

    open spec fn partial_cmp_spec(&self, other: &Brick) -> Option<std::cmp::Ordering> {
        Some(brick_cmp_spec(*self, *other))
    }
}

} // verus!
