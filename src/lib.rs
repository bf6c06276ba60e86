//! Calibration of a Mollweide world-map raster: the outline of the drawn map, its
//! largest 4-connected boundary curve, the four cardinal extremal points of that curve,
//! and the pixel extent they span. Also the footprint of a position marker.

pub mod geometry;
pub mod raster;
pub mod cluster;
pub mod extremes;
pub mod calibration;
pub mod marker;
