use plotz::shp::{to_polygon, PolygonError, RecordError, ShapeKind, ShpConversionError};

#[test]
fn test_foo() {
    //
}

#[test]
fn conversion_errors_wrap_their_causes() {
    let e = ShpConversionError::PolygonError(PolygonError::NullShape);
    assert_ne!(e, ShpConversionError::RecordError(RecordError::NullRecord));
    assert_ne!(PolygonError::NullShape, PolygonError::NotYetHandled);
}

#[test]
fn shapes_convert_by_kind() {
    assert_eq!(to_polygon(ShapeKind::NullShape).unwrap_err(), PolygonError::NullShape);
    assert!(to_polygon(ShapeKind::Point).unwrap().is_none());
    assert!(to_polygon(ShapeKind::PointZ).unwrap().is_none());
    assert_eq!(to_polygon(ShapeKind::Multipatch).unwrap_err(), PolygonError::NotYetHandled);
    assert_eq!(to_polygon(ShapeKind::PolygonM).unwrap_err(), PolygonError::NotYetHandled);
}
