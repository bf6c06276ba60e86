use vstd::prelude::*;

verus! {

/// A pixel position: column `x`, row `y`.
#[derive(Clone, Copy, Debug, PartialEq, Eq, Structural)]
pub struct PixelCoord {
    pub x: usize,
    pub y: usize,
}

/// Two pixels are 4-adjacent when they differ by one step along exactly one axis.
pub open spec fn adjacent4(p: PixelCoord, q: PixelCoord) -> bool {
    ||| p.x == q.x && (p.y + 1 == q.y || q.y + 1 == p.y)
    ||| p.y == q.y && (p.x + 1 == q.x || q.x + 1 == p.x)
}

impl PixelCoord {
    pub fn new(x: usize, y: usize) -> (r: PixelCoord)
        ensures
            r.x == x,
            r.y == y,
    {
        PixelCoord { x, y }
    }
}

} // verus!
