use vstd::prelude::*;

use crate::geometry::PixelCoord;

verus! {

/// A channel value above this counts as bright.
pub const BACKGROUND_THRESHOLD: u8 = 230;

/// One pixel's red, green and blue samples.
#[derive(Clone, Copy, Debug, PartialEq, Eq, Structural)]
pub struct Rgb {
    pub r: u8,
    pub g: u8,
    pub b: u8,
}

/// A pixel is background when every channel is above the threshold.
pub open spec fn is_background(p: Rgb) -> bool {
    p.r > BACKGROUND_THRESHOLD && p.g > BACKGROUND_THRESHOLD && p.b > BACKGROUND_THRESHOLD
}

/// A rectangular grid of RGB pixels, stored row by row.
#[derive(Debug)]
pub struct RgbRaster {
    pub width: usize,
    pub height: usize,
    pub rows: Vec<Vec<Rgb>>,
}

/// A grid of boolean flags with the dimensions of the raster it was computed from.
#[derive(Debug)]
pub struct BoundaryMask {
    pub width: usize,
    pub height: usize,
    pub rows: Vec<Vec<bool>>,
}

/// Why a raster could not be classified.
#[derive(Clone, Copy, Debug, PartialEq, Eq, Structural)]
pub enum ClassifyError {
    /// The raster has no pixels.
    EmptyImage,
}

/// `rows` holds `height` rows of `width` entries each.
pub open spec fn grid_shape<T>(rows: Seq<Vec<T>>, width: usize, height: usize) -> bool {
    &&& rows.len() == height
    &&& forall|y: int| 0 <= y < height ==> (#[trigger] rows[y])@.len() == width
}

impl RgbRaster {
    pub open spec fn wf(&self) -> bool {
        grid_shape(self.rows@, self.width, self.height)
    }

    pub open spec fn in_bounds(&self, x: int, y: int) -> bool {
        0 <= x < self.width && 0 <= y < self.height
    }

    pub open spec fn pixel(&self, x: int, y: int) -> Rgb {
        self.rows@[y]@[x]
    }

    /// `(x, y)` lies in the raster and is background.
    pub open spec fn background_at(&self, x: int, y: int) -> bool {
        self.in_bounds(x, y) && is_background(self.pixel(x, y))
    }

    /// `(x, y)` is not background and one of its eight neighbours inside the raster is.
    pub open spec fn is_boundary_at(&self, x: int, y: int) -> bool {
        &&& !is_background(self.pixel(x, y))
        &&& {
            ||| self.background_at(x - 1, y - 1)
            ||| self.background_at(x, y - 1)
            ||| self.background_at(x + 1, y - 1)
            ||| self.background_at(x - 1, y)
            ||| self.background_at(x + 1, y)
            ||| self.background_at(x - 1, y + 1)
            ||| self.background_at(x, y + 1)
            ||| self.background_at(x + 1, y + 1)
        }
    }

    /// Builds a raster from rows of pixels; `None` when the rows differ in length.
    pub fn from_rows(rows: Vec<Vec<Rgb>>) -> (r: Option<RgbRaster>)
        ensures
            match r {
                Some(img) => img.wf() && img.rows@ == rows@ && img.height == rows@.len() && (
                rows@.len() > 0 ==> img.width == rows@[0]@.len()) && (rows@.len() == 0
                    ==> img.width == 0),
                None => exists|y: int|
                    0 <= y < rows@.len() && (#[trigger] rows@[y])@.len() != rows@[0]@.len(),
            },
    {
        let height = rows.len();
        let width = if height > 0 {
            rows[0].len()
        } else {
            0
        };
        let mut y: usize = 0;
        while y < height
            invariant
                height == rows@.len(),
                y <= height,
                height > 0 ==> width == rows@[0]@.len(),
                forall|j: int| 0 <= j < y ==> (#[trigger] rows@[j])@.len() == width,
            decreases height - y,
        {
            if rows[y].len() != width {
                return None;
            }
            y = y + 1;
        }
        Some(RgbRaster { width, height, rows })
    }

    fn background_exec(&self, x: usize, y: usize) -> (r: bool)
        requires
            self.wf(),
        ensures
            r == self.background_at(x as int, y as int),
    {
        if x < self.width && y < self.height {
            let p = self.rows[y][x];
            p.r > BACKGROUND_THRESHOLD && p.g > BACKGROUND_THRESHOLD && p.b > BACKGROUND_THRESHOLD
        } else {
            false
        }
    }

    fn boundary_exec(&self, x: usize, y: usize) -> (r: bool)
        requires
            self.wf(),
            self.in_bounds(x as int, y as int),
        ensures
            r == self.is_boundary_at(x as int, y as int),
    {
        if self.background_exec(x, y) {
            return false;
        }
        let left = x > 0;
        let up = y > 0;
        (up && left && self.background_exec(x - 1, y - 1)) || (up && self.background_exec(x, y - 1))
            || (up && self.background_exec(x + 1, y - 1)) || (left && self.background_exec(x - 1, y))
            || self.background_exec(x + 1, y) || (left && self.background_exec(x - 1, y + 1))
            || self.background_exec(x, y + 1) || self.background_exec(x + 1, y + 1)
    }
}

impl BoundaryMask {
    pub open spec fn wf(&self) -> bool {
        grid_shape(self.rows@, self.width, self.height)
    }

    pub open spec fn in_bounds(&self, p: PixelCoord) -> bool {
        p.x < self.width && p.y < self.height
    }

    /// `p` lies in the mask and its flag is set.
    pub open spec fn is_on(&self, p: PixelCoord) -> bool {
        self.in_bounds(p) && self.rows@[p.y as int]@[p.x as int]
    }

    /// Builds a mask from rows of flags; `None` when the rows differ in length.
    pub fn from_rows(rows: Vec<Vec<bool>>) -> (r: Option<BoundaryMask>)
        ensures
            match r {
                Some(m) => m.wf() && m.rows@ == rows@ && m.height == rows@.len() && (rows@.len()
                    > 0 ==> m.width == rows@[0]@.len()) && (rows@.len() == 0 ==> m.width == 0),
                None => exists|y: int|
                    0 <= y < rows@.len() && (#[trigger] rows@[y])@.len() != rows@[0]@.len(),
            },
    {
        let height = rows.len();
        let width = if height > 0 {
            rows[0].len()
        } else {
            0
        };
        let mut y: usize = 0;
        while y < height
            invariant
                height == rows@.len(),
                y <= height,
                height > 0 ==> width == rows@[0]@.len(),
                forall|j: int| 0 <= j < y ==> (#[trigger] rows@[j])@.len() == width,
            decreases height - y,
        {
            if rows[y].len() != width {
                return None;
            }
            y = y + 1;
        }
        Some(BoundaryMask { width, height, rows })
    }

    /// The flag at `p`; `false` outside the mask.
    pub fn get(&self, p: PixelCoord) -> (r: bool)
        requires
            self.wf(),
        ensures
            r == self.is_on(p),
    {
        if p.x < self.width && p.y < self.height {
            self.rows[p.y][p.x]
        } else {
            false
        }
    }
}

/// Flags every pixel that is not background but has a background pixel among its
/// eight neighbours. Neighbours outside the raster are skipped.
pub fn classify(img: &RgbRaster) -> (r: Result<BoundaryMask, ClassifyError>)
    requires
        img.wf(),
    ensures
        r is Err <==> img.width == 0 || img.height == 0,
        r matches Err(e) ==> e == ClassifyError::EmptyImage,
        r matches Ok(m) ==> {
            &&& m.wf()
            &&& m.width == img.width
            &&& m.height == img.height
            &&& forall|x: int, y: int|
                img.in_bounds(x, y) ==> (#[trigger] m.rows@[y]@[x]) == img.is_boundary_at(x, y)
        },
{
    if img.width == 0 || img.height == 0 {
        return Err(ClassifyError::EmptyImage);
    }
    let mut rows: Vec<Vec<bool>> = Vec::new();
    let mut y: usize = 0;
    while y < img.height
        invariant
            img.wf(),
            y <= img.height,
            grid_shape(rows@, img.width, y),
            forall|x: int, j: int|
                0 <= x < img.width && 0 <= j < y ==> (#[trigger] rows@[j]@[x])
                    == img.is_boundary_at(x, j),
        decreases img.height - y,
    {
        let mut row: Vec<bool> = Vec::new();
        let mut x: usize = 0;
        while x < img.width
            invariant
                img.wf(),
                y < img.height,
                x <= img.width,
                row@.len() == x,
                forall|i: int| 0 <= i < x ==> (#[trigger] row@[i]) == img.is_boundary_at(i, y as int),
            decreases img.width - x,
        {
            row.push(img.boundary_exec(x, y));
            x = x + 1;
        }
        rows.push(row);
        y = y + 1;
    }
    Ok(BoundaryMask { width: img.width, height: img.height, rows })
}


/// A pixel that is not background and touches a background pixel only at a corner
/// still lies on the boundary; a pixel whose whole 8-neighbourhood lies in the raster
/// and is not background does not.
pub proof fn lemma_boundary_neighbourhood(img: RgbRaster, x: int, y: int, dx: int, dy: int)
    requires
        img.wf(),
        img.in_bounds(x, y),
        !is_background(img.pixel(x, y)),
    ensures
        (dx == 1 || dx == -1) && (dy == 1 || dy == -1) && img.background_at(x + dx, y + dy)
            ==> img.is_boundary_at(x, y),
        (forall|i: int, j: int|
            -1 <= i <= 1 && -1 <= j <= 1 ==> #[trigger] img.in_bounds(x + i, y + j) && !is_background(
                img.pixel(x + i, y + j),
            )) ==> !img.is_boundary_at(x, y),
{
    if forall|i: int, j: int|
        -1 <= i <= 1 && -1 <= j <= 1 ==> #[trigger] img.in_bounds(x + i, y + j) && !is_background(
            img.pixel(x + i, y + j),
        ) {
        assert(img.in_bounds(x + (-1), y + (-1)));
        assert(img.in_bounds(x + (-1), y + (0)));
        assert(img.in_bounds(x + (-1), y + (1)));
        assert(img.in_bounds(x + (0), y + (-1)));
        assert(img.in_bounds(x + (0), y + (1)));
        assert(img.in_bounds(x + (1), y + (-1)));
        assert(img.in_bounds(x + (1), y + (0)));
        assert(img.in_bounds(x + (1), y + (1)));
    }
}

} // verus!
