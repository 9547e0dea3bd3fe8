//! Plane geometry for pen plotting on an integer lattice: points, segments,
//! multilines, polygons, their intersections and crops.

pub mod bounds;
pub mod crop;
pub mod crop_graph;
pub mod frac;
pub mod geometry3d;
pub mod graph;
pub mod intersection;
pub mod occluder;
pub mod ml;
pub mod pg;
pub mod pgc;
pub mod physics;
pub mod pt;
pub mod sg;
pub mod shp;
pub mod traits;
pub mod utils;
