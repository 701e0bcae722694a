//! Tiles of the grid and the rectangular rooms carved into it.
use vstd::prelude::*;

verus! {

/// One cell of the dungeon grid.
#[derive(Clone, Copy, Debug, PartialEq, Eq, Structural)]
pub struct Tile {
    pub blocked: bool,
    pub block_sight: bool,
    pub explored: bool,
}

impl Tile {
    /// The wall tile.
    pub open spec fn spec_wall() -> Tile {
        Tile { blocked: true, block_sight: true, explored: false }
    }

    /// A floor tile: nothing blocks movement or sight.
    pub fn empty() -> (t: Self)
        ensures
            t == (Tile { blocked: false, block_sight: false, explored: false }),
    {
        Tile { blocked: false, block_sight: false, explored: false }
    }

    /// A wall tile: it blocks movement and sight.
    pub fn wall() -> (t: Self)
        ensures
            t == Tile::spec_wall(),
    {
        Tile { blocked: true, block_sight: true, explored: false }
    }

    /// Whether an entity may stand on this tile.
    pub fn is_walkable(&self) -> (r: bool)
        ensures
            r == !self.blocked,
    {
        !self.blocked
    }
}

/// Half of `s`, rounded down.
fn half_floor(s: i64) -> (h: i32)
    requires
        2 * (i32::MIN as int) <= s <= 2 * (i32::MAX as int),
    ensures
        h == s / 2,
{
    if s >= 0 {
        (s / 2) as i32
    } else {
        let t: i64 = -s;
        let q: i64 = (t + 1) / 2;
        assert(-q == s / 2) by (nonlinear_arith)
            requires
                t == -s,
                q == (t + 1) / 2,
                s < 0,
        ;
        (-q) as i32
    }
}

/// An axis-aligned room; its outer ring stays wall.
#[derive(Clone, Copy, Debug, PartialEq, Eq, Structural)]
pub struct Rect {
    pub x1: i32,
    pub y1: i32,
    pub x2: i32,
    pub y2: i32,
}

impl Rect {
    /// The centre of the room, by floor division of the corner sums.
    pub open spec fn spec_center(&self) -> (int, int) {
        ((self.x1 + self.x2) / 2, (self.y1 + self.y2) / 2)
    }

    /// The inclusive overlap test: rooms that share an edge overlap.
    pub open spec fn spec_intersects(&self, other: &Rect) -> bool {
        self.x1 <= other.x2 && self.x2 >= other.x1 && self.y1 <= other.y2 && self.y2 >= other.y1
    }

    /// The room with top-left corner `(x, y)`, width `w` and height `h`.
    pub fn new(x: i32, y: i32, w: i32, h: i32) -> (r: Self)
        requires
            i32::MIN <= x + w <= i32::MAX,
            i32::MIN <= y + h <= i32::MAX,
        ensures
            r.x1 == x,
            r.y1 == y,
            r.x2 == x + w,
            r.y2 == y + h,
    {
        Rect { x1: x, y1: y, x2: x + w, y2: y + h }
    }

    pub fn center(&self) -> (c: (i32, i32))
        ensures
            c.0 == self.spec_center().0,
            c.1 == self.spec_center().1,
    {
        (half_floor(self.x1 as i64 + self.x2 as i64), half_floor(self.y1 as i64 + self.y2 as i64))
    }

    pub fn intersects_with(&self, other: &Rect) -> (r: bool)
        ensures
            r == self.spec_intersects(other),
    {
        (self.x1 <= other.x2) && (self.x2 >= other.x1) && (self.y1 <= other.y2) && (self.y2
            >= other.y1)
    }
}

} // verus!
