use vstd::prelude::*;

verus! {

/// Radius of the marker disc, in pixels.
pub const MARKER_RADIUS: i64 = 5;

/// Width of the dark ring at the rim of the marker disc, in pixels.
pub const BORDER_THICKNESS: i64 = 2;

/// One pixel of a marker disc, and whether it belongs to the ring at its rim.
#[derive(Clone, Copy, Debug, PartialEq, Eq, Structural)]
pub struct MarkerCell {
    pub x: u32,
    pub y: u32,
    pub border: bool,
}

/// Squared distance from `(cx, cy)` to `(x, y)`.
pub open spec fn dist2(cx: int, cy: int, x: int, y: int) -> int {
    (x - cx) * (x - cx) + (y - cy) * (y - cy)
}

/// `(x, y)` lies on the disc of the marker centred at `(cx, cy)`.
pub open spec fn in_disc(cx: int, cy: int, x: int, y: int) -> bool {
    dist2(cx, cy, x, y) <= MARKER_RADIUS * MARKER_RADIUS
}

/// `(x, y)` lies on the rim ring of that disc.
pub open spec fn in_ring(cx: int, cy: int, x: int, y: int) -> bool {
    dist2(cx, cy, x, y) >= (MARKER_RADIUS - BORDER_THICKNESS) * (MARKER_RADIUS - BORDER_THICKNESS)
}

/// `a` comes before `b` by column, then by row.
pub open spec fn precedes(a: MarkerCell, b: MarkerCell) -> bool {
    a.x < b.x || (a.x == b.x && a.y < b.y)
}

proof fn lemma_square_bound(a: int)
    requires
        a * a <= MARKER_RADIUS * MARKER_RADIUS,
    ensures
        -MARKER_RADIUS <= a <= MARKER_RADIUS,
{
    assert(a * a <= 25 ==> -5 <= a <= 5) by (nonlinear_arith);
}

/// The pixels of a `width` x `height` raster that a marker centred at `(px, py)`
/// covers, by column and then by row, each with its ring flag.
pub fn marker_cells(px: u32, py: u32, width: u32, height: u32) -> (r: Vec<MarkerCell>)
    ensures
        forall|k: int|
            0 <= k < r@.len() ==> {
                &&& (#[trigger] r@[k]).x < width
                &&& r@[k].y < height
                &&& in_disc(px as int, py as int, r@[k].x as int, r@[k].y as int)
                &&& r@[k].border == in_ring(px as int, py as int, r@[k].x as int, r@[k].y as int)
            },
        forall|x: u32, y: u32|
            x < width && y < height && #[trigger] in_disc(px as int, py as int, x as int, y as int)
                ==> exists|k: int| 0 <= k < r@.len() && (#[trigger] r@[k]).x == x && r@[k].y == y,
        forall|i: int, j: int| 0 <= i < j < r@.len() ==> precedes(#[trigger] r@[i], #[trigger] r@[j]),
{
    let mut cells: Vec<MarkerCell> = Vec::new();
    let mut dx: i64 = -MARKER_RADIUS;
    proof {
        assert forall|x: u32, y: u32|
            x < width && y < height && #[trigger] in_disc(px as int, py as int, x as int, y as int)
            implies !(x < px + dx) by {
            assert((y - py) * (y - py) >= 0) by (nonlinear_arith);
            lemma_square_bound(x - px);
        }
    }
    while dx <= MARKER_RADIUS
        invariant
            -MARKER_RADIUS <= dx <= MARKER_RADIUS + 1,
            forall|k: int|
                0 <= k < cells@.len() ==> {
                    &&& (#[trigger] cells@[k]).x < width
                    &&& cells@[k].y < height
                    &&& in_disc(px as int, py as int, cells@[k].x as int, cells@[k].y as int)
                    &&& cells@[k].border == in_ring(px as int, py as int, cells@[k].x as int, cells@[k].y as int)
                    &&& cells@[k].x < px + dx
                },
            forall|x: u32, y: u32|
                x < width && y < height && #[trigger] in_disc(px as int, py as int, x as int, y as int)
                    && x < px + dx ==> exists|k: int|
                    0 <= k < cells@.len() && (#[trigger] cells@[k]).x == x && cells@[k].y == y,
            forall|i: int, j: int|
                0 <= i < j < cells@.len() ==> precedes(#[trigger] cells@[i], #[trigger] cells@[j]),
        decreases MARKER_RADIUS + 1 - dx,
    {
        let nx: i64 = px as i64 + dx;
        let mut dy: i64 = -MARKER_RADIUS;
        let ghost start = cells@.len();
        proof {
            assert forall|x: u32, y: u32|
                x < width && y < height && #[trigger] in_disc(px as int, py as int, x as int, y as int)
                implies !(x == nx && y < py + dy) by {
                assert((x - px) * (x - px) >= 0) by (nonlinear_arith);
                lemma_square_bound(y - py);
            }
        }
        while dy <= MARKER_RADIUS
            invariant
                -MARKER_RADIUS <= dx <= MARKER_RADIUS,
                -MARKER_RADIUS <= dy <= MARKER_RADIUS + 1,
                nx == px + dx,
                start <= cells@.len(),
                forall|k: int|
                    0 <= k < cells@.len() ==> {
                        &&& (#[trigger] cells@[k]).x < width
                        &&& cells@[k].y < height
                        &&& in_disc(px as int, py as int, cells@[k].x as int, cells@[k].y as int)
                        &&& cells@[k].border == in_ring(px as int, py as int, cells@[k].x as int, cells@[k].y as int)
                        &&& cells@[k].x <= nx
                        &&& (k >= start ==> cells@[k].x == nx && cells@[k].y < py + dy)
                        &&& (k < start ==> cells@[k].x < nx)
                    },
                forall|x: u32, y: u32|
                    x < width && y < height && #[trigger] in_disc(px as int, py as int, x as int, y as int)
                        && (x < nx || (x == nx && y < py + dy)) ==> exists|k: int|
                        0 <= k < cells@.len() && (#[trigger] cells@[k]).x == x && cells@[k].y == y,
                forall|i: int, j: int|
                    0 <= i < j < cells@.len() ==> precedes(#[trigger] cells@[i], #[trigger] cells@[j]),
            decreases MARKER_RADIUS + 1 - dy,
        {
            let ny: i64 = py as i64 + dy;
            if nx >= 0 && nx < width as i64 && ny >= 0 && ny < height as i64 {
                assert(0 <= dx * dx <= 25) by (nonlinear_arith)
                    requires
                        -5 <= dx <= 5,
                ;
                assert(0 <= dy * dy <= 25) by (nonlinear_arith)
                    requires
                        -5 <= dy <= 5,
                ;
                let d2: i64 = dx * dx + dy * dy;
                proof {
                    assert(dist2(px as int, py as int, nx as int, ny as int) == dx * dx + dy * dy);
                }
                if d2 <= MARKER_RADIUS * MARKER_RADIUS {
                    let border = d2 >= (MARKER_RADIUS - BORDER_THICKNESS) * (MARKER_RADIUS - BORDER_THICKNESS);
                    let ghost before = cells@;
                    cells.push(MarkerCell { x: nx as u32, y: ny as u32, border });
                    proof {
                        assert forall|i: int, j: int| 0 <= i < j < cells@.len() implies precedes(
                            #[trigger] cells@[i],
                            #[trigger] cells@[j],
                        ) by {
                            if j == before.len() {
                                assert(cells@[i] == before[i]);
                            }
                        }
                        assert forall|x: u32, y: u32|
                            x < width && y < height && #[trigger] in_disc(px as int, py as int, x as int, y as int)
                                && (x < nx || (x == nx && y < py + dy + 1)) implies exists|k: int|
                                0 <= k < cells@.len() && (#[trigger] cells@[k]).x == x && cells@[k].y == y by {
                            if x == nx && y == ny {
                                assert(cells@[before.len() as int].x == x);
                            } else {
                                let k = choose|k: int| 0 <= k < before.len() && (#[trigger] before[k]).x == x && before[k].y == y;
                                assert(cells@[k] == before[k]);
                            }
                        }
                    }
                } else {
                    proof {
                        assert forall|x: u32, y: u32|
                            x < width && y < height && #[trigger] in_disc(px as int, py as int, x as int, y as int)
                                && (x < nx || (x == nx && y < py + dy + 1)) implies exists|k: int|
                                0 <= k < cells@.len() && (#[trigger] cells@[k]).x == x && cells@[k].y == y by {
                            if x == nx && y == ny {
                                assert(false);
                            }
                        }
                    }
                }
            } else {
                proof {
                    assert forall|x: u32, y: u32|
                        x < width && y < height && #[trigger] in_disc(px as int, py as int, x as int, y as int)
                            && (x < nx || (x == nx && y < py + dy + 1)) implies exists|k: int|
                            0 <= k < cells@.len() && (#[trigger] cells@[k]).x == x && cells@[k].y == y by {
                        if x == nx && y == ny {
                            assert(false);
                        }
                    }
                }
            }
            dy = dy + 1;
        }
        proof {
            assert forall|x: u32, y: u32|
                x < width && y < height && #[trigger] in_disc(px as int, py as int, x as int, y as int)
                    && x < px + dx + 1 implies exists|k: int|
                    0 <= k < cells@.len() && (#[trigger] cells@[k]).x == x && cells@[k].y == y by {
                if x == nx {
                    assert((x - px) * (x - px) >= 0) by (nonlinear_arith);
                    lemma_square_bound(y - py);
                }
            }
        }
        dx = dx + 1;
    }
    proof {
        assert forall|x: u32, y: u32|
            x < width && y < height && #[trigger] in_disc(px as int, py as int, x as int, y as int)
            implies exists|k: int| 0 <= k < cells@.len() && (#[trigger] cells@[k]).x == x && cells@[k].y == y by {
            assert((y - py) * (y - py) >= 0) by (nonlinear_arith);
            lemma_square_bound(x - px);
        }
    }
    cells
}

} // verus!
