//! Rectangular rooms.
use vstd::prelude::*;

verus! {

/// A rectangle with corners `(x1, y1)` and `(x2, y2)`.
#[derive(PartialEq, Eq, Structural, Copy, Clone, Debug)]
pub struct Rect {
    pub x1: i32,
    pub x2: i32,
    pub y1: i32,
    pub y2: i32,
}

/// Centre column of a rectangle.
pub open spec fn center_x(r: Rect) -> int {
    (r.x1 + r.x2) / 2
}

/// Centre row of a rectangle.
pub open spec fn center_y(r: Rect) -> int {
    (r.y1 + r.y2) / 2
}

/// The rectangle lies on a `w` by `h` grid, with `x1 < x2` and `y1 < y2`.
pub open spec fn rect_in(w: int, h: int, r: Rect) -> bool {
    0 <= r.x1 < r.x2 < w && 0 <= r.y1 < r.y2 < h
}

/// The two rectangles share a cell, borders included.
pub open spec fn overlaps(a: Rect, b: Rect) -> bool {
    a.x1 <= b.x2 && a.x2 >= b.x1 && a.y1 <= b.y2 && a.y2 >= b.y1
}

impl Rect {
    /// The rectangle at `(x, y)` that is `w` wide and `h` high.
    pub fn new(x: i32, y: i32, w: i32, h: i32) -> (r: Rect)
        requires
            x + w <= i32::MAX,
            y + h <= i32::MAX,
            x + w >= i32::MIN,
            y + h >= i32::MIN,
        ensures
            r == (Rect { x1: x, y1: y, x2: (x + w) as i32, y2: (y + h) as i32 }),
    {
        Rect { x1: x, y1: y, x2: x + w, y2: y + h }
    }

    /// The rectangles share a cell, borders included.
    pub fn intersect(&self, other: &Rect) -> (r: bool)
        ensures
            r == overlaps(*self, *other),
    {
        self.x1 <= other.x2 && self.x2 >= other.x1 && self.y1 <= other.y2 && self.y2 >= other.y1
    }

    /// The centre cell, rounding down.
    pub fn center(&self) -> (r: (i32, i32))
        requires
            0 <= self.x1,
            0 <= self.x2,
            0 <= self.y1,
            0 <= self.y2,
        ensures
            r.0 == center_x(*self),
            r.1 == center_y(*self),
    {
        (((self.x1 as i64 + self.x2 as i64) / 2) as i32, ((self.y1 as i64 + self.y2 as i64) / 2) as i32)
    }
}

} // verus!
