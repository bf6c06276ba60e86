use vstd::prelude::*;

use crate::cluster::{find_principal_cluster, is_component, ClusterError};
use crate::extremes::{extreme_of, extremes, Direction, ExtremalSet};
use crate::geometry::PixelCoord;
use crate::raster::{classify, is_background, BoundaryMask, ClassifyError, RgbRaster};

verus! {

/// The pixel extent of the rendered map: the columns of its leftmost and rightmost
/// points and the rows of its topmost and bottommost points.
#[derive(Clone, Copy, Debug, PartialEq, Eq, Structural)]
pub struct CalibrationBounds {
    pub left: usize,
    pub right: usize,
    pub top: usize,
    pub bottom: usize,
}

/// Why no calibration could be derived.
#[derive(Clone, Copy, Debug, PartialEq, Eq, Structural)]
pub enum CalibrationError {
    /// The raster has no pixels.
    EmptyImage,
    /// No pixel of the raster lies on a boundary.
    NoBoundaryFound,
    /// The extent has no width or no height.
    DegenerateBounds,
}

impl CalibrationBounds {
    /// The extent is not empty in either direction.
    pub open spec fn wf(&self) -> bool {
        self.right > self.left && self.bottom > self.top
    }

    pub fn new(left: usize, right: usize, top: usize, bottom: usize) -> (r: Result<
        CalibrationBounds,
        CalibrationError,
    >)
        ensures
            r is Err <==> !(right > left && bottom > top),
            r matches Err(e) ==> e == CalibrationError::DegenerateBounds,
            r matches Ok(b) ==> b.wf() && b.left == left && b.right == right && b.top == top
                && b.bottom == bottom,
    {
        if right > left && bottom > top {
            Ok(CalibrationBounds { left, right, top, bottom })
        } else {
            Err(CalibrationError::DegenerateBounds)
        }
    }

    /// Reads the extent off the four extremal points.
    pub fn from_extremes(e: &ExtremalSet) -> (r: Result<CalibrationBounds, CalibrationError>)
        ensures
            r is Err <==> !(e.east.x > e.west.x && e.south.y > e.north.y),
            r matches Err(err) ==> err == CalibrationError::DegenerateBounds,
            r matches Ok(b) ==> b.wf() && bounds_of(*e) == b,
    {
        CalibrationBounds::new(e.west.x, e.east.x, e.north.y, e.south.y)
    }
}

/// The extent that the extremal points `e` span.
pub open spec fn bounds_of(e: ExtremalSet) -> CalibrationBounds {
    CalibrationBounds { left: e.west.x, right: e.east.x, top: e.north.y, bottom: e.south.y }
}

/// `m` flags exactly the boundary pixels of `img`.
pub open spec fn is_classification(img: RgbRaster, m: BoundaryMask) -> bool {
    &&& m.wf()
    &&& m.width == img.width
    &&& m.height == img.height
    &&& forall|x: int, y: int|
        img.in_bounds(x, y) ==> (#[trigger] m.rows@[y]@[x]) == img.is_boundary_at(x, y)
}

/// `c` is a component of `m` with at least as many pixels as every other one.
pub open spec fn is_principal(m: BoundaryMask, c: Seq<PixelCoord>) -> bool {
    &&& is_component(m, c)
    &&& forall|s: Seq<PixelCoord>| #[trigger] is_component(m, s) ==> s.len() <= c.len()
}

/// The four representatives of `c`.
pub open spec fn extremes_of(c: Seq<PixelCoord>) -> ExtremalSet {
    ExtremalSet {
        west: extreme_of(c, Direction::West),
        east: extreme_of(c, Direction::East),
        north: extreme_of(c, Direction::North),
        south: extreme_of(c, Direction::South),
    }
}

/// Derives the map's extent from a reference raster: the boundary mask, its principal
/// cluster, and that cluster's four extremal points.
pub fn calibrate(img: &RgbRaster) -> (r: Result<CalibrationBounds, CalibrationError>)
    requires
        img.wf(),
    ensures
        r == Err::<CalibrationBounds, CalibrationError>(CalibrationError::EmptyImage) <==> (
        img.width == 0 || img.height == 0),
        r == Err::<CalibrationBounds, CalibrationError>(CalibrationError::NoBoundaryFound) <==> (
        img.width > 0 && img.height > 0 && forall|x: int, y: int|
            img.in_bounds(x, y) ==> !#[trigger] img.is_boundary_at(x, y)),
        r matches Err(e) && e == CalibrationError::DegenerateBounds ==> exists|
            m: BoundaryMask,
            c: Seq<PixelCoord>,
        |
            is_classification(*img, m) && #[trigger] is_principal(m, c) && !bounds_of(
                extremes_of(c),
            ).wf(),
        r matches Ok(b) ==> b.wf() && exists|m: BoundaryMask, c: Seq<PixelCoord>|
            is_classification(*img, m) && #[trigger] is_principal(m, c) && b == bounds_of(
                extremes_of(c),
            ),
{
    let m = match classify(img) {
        Ok(m) => m,
        Err(ClassifyError::EmptyImage) => return Err(CalibrationError::EmptyImage),
    };
    let c = match find_principal_cluster(&m) {
        Ok(c) => c,
        Err(ClusterError::NoBoundaryFound) => {
            proof {
                assert forall|x: int, y: int| img.in_bounds(x, y) implies !#[trigger] img.is_boundary_at(x, y) by {
                    let p = PixelCoord { x: x as usize, y: y as usize };
                    assert(!m.is_on(p));
                }
            }
            return Err(CalibrationError::NoBoundaryFound);
        },
    };
    proof {
        let p = c@[0];
        assert(m.is_on(p));
        assert(img.is_boundary_at(p.x as int, p.y as int));
    }
    let e = extremes(&c);
    let r = CalibrationBounds::from_extremes(&e);
    proof {
        assert(is_principal(m, c@));
        assert(e == extremes_of(c@));
    }
    r
}


/// A raster whose pixels are all background has no boundary pixel, so the mask that
/// classifies it is all unset and no cluster can be formed from it.
pub proof fn lemma_blank_raster_has_no_boundary(img: RgbRaster, m: BoundaryMask)
    requires
        img.wf(),
        forall|x: int, y: int| img.in_bounds(x, y) ==> is_background(#[trigger] img.pixel(x, y)),
        is_classification(img, m),
    ensures
        forall|x: int, y: int| img.in_bounds(x, y) ==> !#[trigger] img.is_boundary_at(x, y),
        forall|x: int, y: int| img.in_bounds(x, y) ==> !#[trigger] m.rows@[y]@[x],
        forall|p: PixelCoord| !#[trigger] m.is_on(p),
{
    assert forall|p: PixelCoord| !#[trigger] m.is_on(p) by {
        if m.in_bounds(p) {
            assert(img.in_bounds(p.x as int, p.y as int));
            assert(!img.is_boundary_at(p.x as int, p.y as int));
        }
    }
}

} // verus!
