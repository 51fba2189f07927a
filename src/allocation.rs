use vstd::prelude::*;
use crate::rect::Rect;

verus! {

/// Where one image lives: its rectangle, the layer holding it, and the
/// caller's metadata. Once placed it never changes.
#[derive(Clone, Copy, Debug, PartialEq, Eq, Structural)]
pub struct Allocation {
    pub allocation: Rect,
    pub layer: usize,
    pub data: i32,
}

impl Allocation {
    /// Returns the corner `(x, y)` of the rectangle in its layer.
    pub fn position(&self) -> (r: (u32, u32))
        ensures
            r == (self.allocation.x, self.allocation.y),
    {
        self.allocation.position()
    }

    /// Returns `(width, height)` of the rectangle.
    pub fn size(&self) -> (r: (u32, u32))
        ensures
            r == (self.allocation.width, self.allocation.height),
    {
        self.allocation.size()
    }
}

} // verus!
