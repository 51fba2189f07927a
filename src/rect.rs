use vstd::prelude::*;

verus! {

/// An axis-aligned rectangle in texel coordinates of one atlas layer.
#[derive(Clone, Copy, Debug, PartialEq, Eq, Structural)]
pub struct Rect {
    pub x: u32,
    pub y: u32,
    pub width: u32,
    pub height: u32,
}

impl Rect {
    /// One past the last column covered.
    pub open spec fn right(self) -> int {
        self.x + self.width
    }

    /// One past the last row covered.
    pub open spec fn bottom(self) -> int {
        self.y + self.height
    }

    /// The rectangle covers at least one texel.
    pub open spec fn has_area(self) -> bool {
        self.width > 0 && self.height > 0
    }

    /// The rectangle lies inside a square layer of side `side`.
    pub open spec fn inside(self, side: int) -> bool {
        self.right() <= side && self.bottom() <= side
    }

    /// The two rectangles share no texel.
    pub open spec fn disjoint(self, o: Rect) -> bool {
        self.right() <= o.x || o.right() <= self.x || self.bottom() <= o.y || o.bottom() <= self.y
    }

    /// The rectangle of the given size whose corner is `(x, y)`.
    pub open spec fn at(x: u32, y: u32, width: u32, height: u32) -> Rect {
        Rect { x, y, width, height }
    }

    /// Returns the corner `(x, y)` of the rectangle.
    pub fn position(&self) -> (r: (u32, u32))
        ensures
            r == (self.x, self.y),
    {
        (self.x, self.y)
    }

    /// Returns `(width, height)` of the rectangle.
    pub fn size(&self) -> (r: (u32, u32))
        ensures
            r == (self.width, self.height),
    {
        (self.width, self.height)
    }
}

} // verus!
