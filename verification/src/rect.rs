//! Axis-aligned rectangles, used to outline rooms during dungeon generation.

use vstd::prelude::*;

verus! {

/// A rectangle on the map, addressed by its two corners.
/// `x2` and `y2` are inclusive bounds as far as intersection is concerned;
/// the carved interior excludes all four edges.
#[derive(Clone, Copy, Debug, PartialEq, Eq, Structural)]
pub struct Rect {
    pub x1: i32,
    pub y1: i32,
    pub x2: i32,
    pub y2: i32,
}

impl Rect {
    /// The x coordinate of the room's center.
    pub open spec fn center_x(self) -> int {
        (self.x1 + self.x2) / 2
    }

    /// The y coordinate of the room's center.
    pub open spec fn center_y(self) -> int {
        (self.y1 + self.y2) / 2
    }

    /// Whether two rectangles touch or overlap, bounds included.
    pub open spec fn spec_intersects(self, other: Rect) -> bool {
        self.x1 <= other.x2 && self.x2 >= other.x1 && self.y1 <= other.y2 && self.y2 >= other.y1
    }

    pub fn new(x: i32, y: i32, w: i32, h: i32) -> (r: Rect)
        requires
            i32::MIN <= x + w <= i32::MAX,
            i32::MIN <= y + h <= i32::MAX,
        ensures
            r == (Rect { x1: x, y1: y, x2: (x + w) as i32, y2: (y + h) as i32 }),
    {
        Rect { x1: x, y1: y, x2: x + w, y2: y + h }
    }

    /// Center of the rectangle, rounding towards the low corner.
    pub fn center(&self) -> (c: (i32, i32))
        requires
            0 <= self.x1,
            0 <= self.y1,
            self.x1 + self.x2 <= i32::MAX,
            self.y1 + self.y2 <= i32::MAX,
            0 <= self.x2,
            0 <= self.y2,
        ensures
            c.0 == self.center_x(),
            c.1 == self.center_y(),
    {
        let cx = (self.x1 + self.x2) / 2;
        let cy = (self.y1 + self.y2) / 2;
        (cx, cy)
    }

    /// Whether this rectangle intersects another one, bounds included.
    pub fn intersects_with(&self, other: &Rect) -> (r: bool)
        ensures
            r == self.spec_intersects(*other),
    {
        (self.x1 <= other.x2) && (self.x2 >= other.x1) && (self.y1 <= other.y2)
            && (self.y2 >= other.y1)
    }
}

/// Intersection is symmetric: the order of the two rooms does not matter.
pub proof fn lemma_intersects_symmetric(a: Rect, b: Rect)
    ensures
        a.spec_intersects(b) == b.spec_intersects(a),
{
}

} // verus!
