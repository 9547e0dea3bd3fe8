//! Converting shapefile shapes to polygons, and the errors met on the way.

use vstd::prelude::*;
use crate::pg::Pg;

verus! {

/// A record could not be converted.
#[derive(Debug, Clone, Copy, PartialEq, Eq, Structural)]
pub enum RecordError {
    /// Encountered a null record.
    NullRecord,
}

/// A shape could not be converted to a polygon.
#[derive(Debug, Clone, Copy, PartialEq, Eq, Structural)]
pub enum PolygonError {
    /// Encountered a null shape.
    NullShape,
    /// Encountered a shape not yet handled.
    NotYetHandled,
}

/// A general error arising from converting shapefiles to polygons.
#[derive(Debug, Clone, Copy, PartialEq, Eq, Structural)]
pub enum ShpConversionError {
    /// Could not convert a polygon.
    PolygonError(PolygonError),
    /// Could not convert a record.
    RecordError(RecordError),
}

/// The kinds of shape a shapefile holds.
#[derive(Debug, Clone, Copy, PartialEq, Eq, Structural)]
pub enum ShapeKind {
    /// No shape.
    NullShape,
    /// A point.
    Point,
    /// A point with a measure.
    PointM,
    /// A point with a height.
    PointZ,
    /// A polyline.
    Polyline,
    /// A polyline with measures.
    PolylineM,
    /// A polyline with heights.
    PolylineZ,
    /// A polygon.
    Polygon,
    /// A polygon with measures.
    PolygonM,
    /// A polygon with heights.
    PolygonZ,
    /// Several points.
    Multipoint,
    /// Several points with measures.
    MultipointM,
    /// Several points with heights.
    MultipointZ,
    /// A patch of surfaces.
    Multipatch,
}

/// Converts a shape to a polygon: a null shape is an error, points give no
/// polygon, and the other kinds are not handled yet. Polylines and polygons
/// themselves are not converted at all.
pub fn to_polygon(shape: ShapeKind) -> (r: Result<Option<Pg>, PolygonError>)
    requires
        shape != ShapeKind::Polyline,
        shape != ShapeKind::Polygon,
    ensures
        shape == ShapeKind::NullShape ==> r == Err::<Option<Pg>, PolygonError>(PolygonError::NullShape),
        (shape == ShapeKind::Point || shape == ShapeKind::PointM || shape == ShapeKind::PointZ) ==> r == Ok::<Option<Pg>, PolygonError>(None),
        !(shape == ShapeKind::NullShape || shape == ShapeKind::Point || shape == ShapeKind::PointM || shape == ShapeKind::PointZ)
            ==> r == Err::<Option<Pg>, PolygonError>(PolygonError::NotYetHandled),
{
    match shape {
        ShapeKind::NullShape => Err(PolygonError::NullShape),
        ShapeKind::Point | ShapeKind::PointM | ShapeKind::PointZ => Ok(None),
        _ => Err(PolygonError::NotYetHandled),
    }
}

} // verus!
