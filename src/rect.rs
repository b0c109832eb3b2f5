use vstd::prelude::*;

verus! {

/// An axis-aligned rectangle in tile coordinates; both corners are inclusive.
#[derive(Clone, Copy, Debug, PartialEq, Eq, Structural)]
pub struct Rect {
    pub x0: i32,
    pub y0: i32,
    pub x1: i32,
    pub y1: i32,
}

/// Whether two rectangles share at least one tile, or touch along an edge
/// (the bounds are compared inclusively, so rooms that pass this test stay
/// separated by at least one tile).
pub open spec fn rects_intersect(a: Rect, b: Rect) -> bool {
    a.x0 <= b.x1 && a.x1 >= b.x0 && a.y0 <= b.y1 && a.y1 >= b.y0
}

/// Integer halving that rounds toward zero, as Rust's `/` does on signed values.
pub open spec fn half_toward_zero(s: int) -> int {
    if s >= 0 {
        s / 2
    } else {
        -((-s) / 2)
    }
}

/// The center tile of a rectangle.
pub open spec fn rect_center(r: Rect) -> (int, int) {
    (half_toward_zero(r.x0 + r.x1), half_toward_zero(r.y0 + r.y1))
}

fn midpoint(a: i32, b: i32) -> (r: i32)
    ensures
        r == half_toward_zero(a + b),
{
    let s: i64 = a as i64 + b as i64;
    if s >= 0 {
        (s / 2) as i32
    } else {
        let h: i64 = (-s) / 2;
        (-h) as i32
    }
}

impl Rect {
    pub fn new(x0: i32, y0: i32, x1: i32, y1: i32) -> (r: Rect)
        ensures
            r == (Rect { x0, y0, x1, y1 }),
    {
        Rect { x0, y0, x1, y1 }
    }

    pub fn intersect(&self, other: &Rect) -> (r: bool)
        ensures
            r == rects_intersect(*self, *other),
    {
        self.x0 <= other.x1 && self.x1 >= other.x0 && self.y0 <= other.y1 && self.y1 >= other.y0
    }

    pub fn center(&self) -> (r: (i32, i32))
        ensures
            r.0 == rect_center(*self).0,
            r.1 == rect_center(*self).1,
    {
        (midpoint(self.x0, self.x1), midpoint(self.y0, self.y1))
    }
}

} // verus!
