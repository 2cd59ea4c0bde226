//! Integer geometry in logical output coordinates: points, sizes and
//! rectangles, plus the few derived quantities the layout code needs.

use vstd::prelude::*;

verus! {

/// A position in logical coordinates.
#[derive(Clone, Copy, Debug, PartialEq, Eq, Structural)]
pub struct Point {
    pub x: i32,
    pub y: i32,
}

/// A width/height pair in logical coordinates.
#[derive(Clone, Copy, Debug, PartialEq, Eq, Structural)]
pub struct Size {
    pub w: i32,
    pub h: i32,
}

/// An axis-aligned rectangle: its top-left corner and its size.
#[derive(Clone, Copy, Debug, PartialEq, Eq, Structural)]
pub struct Rect {
    pub loc: Point,
    pub size: Size,
}

/// `v` is a value of `i32`.
pub open spec fn in_i32(v: int) -> bool {
    i32::MIN <= v <= i32::MAX
}

/// Integer division rounding toward zero, as Rust's `/` does.
pub open spec fn trunc_div(x: int, d: int) -> int {
    if x >= 0 {
        x / d
    } else {
        -((-x) / d)
    }
}

pub open spec fn abs(x: int) -> int {
    if x >= 0 {
        x
    } else {
        -x
    }
}

impl Rect {
    pub open spec fn spec_center(self) -> (int, int) {
        (
            self.loc.x + trunc_div(self.size.w as int, 2),
            self.loc.y + trunc_div(self.size.h as int, 2),
        )
    }

    /// Computing the center stays within `i32`.
    pub open spec fn center_in_range(self) -> bool {
        in_i32(self.spec_center().0) && in_i32(self.spec_center().1)
    }

    pub fn new(x: i32, y: i32, w: i32, h: i32) -> (r: Rect)
        ensures
            r.loc == (Point { x, y }),
            r.size == (Size { w, h }),
    {
        Rect { loc: Point { x, y }, size: Size { w, h } }
    }

    /// The rectangle's center, each coordinate rounded toward its origin
    /// edge the way integer halving does.
    pub fn center(&self) -> (c: (i32, i32))
        requires
            self.center_in_range(),
        ensures
            c.0 == self.spec_center().0,
            c.1 == self.spec_center().1,
    {
        let w: i64 = self.size.w as i64;
        let h: i64 = self.size.h as i64;
        let hw: i64 = if w >= 0 { w / 2 } else { -((-w) / 2) };
        let hh: i64 = if h >= 0 { h / 2 } else { -((-h) / 2) };
        ((self.loc.x as i64 + hw) as i32, (self.loc.y as i64 + hh) as i32)
    }
}

} // verus!
