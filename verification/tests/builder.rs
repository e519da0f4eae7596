use geozero::builder::{build_geometry, GeometryBuilder};
use geozero::error::{DecodeFault, GeozeroError};
use geozero::event::{Coordinate, Dimension, GeometryKind, PropertyValue, Walk};
use geozero::geometry::Geometry;
use geozero::processor::FeatureProcessor;
use geozero::walker::{process_geometry, GeozeroGeometry};

fn xy(x: f64, y: f64) -> Coordinate {
    Coordinate::xy(x.to_bits(), y.to_bits())
}

fn xyzm(x: f64, y: f64, z: f64, m: f64) -> Coordinate {
    Coordinate { x: x.to_bits(), y: y.to_bits(), z: Some(z.to_bits()), m: Some(m.to_bits()) }
}

fn ring(origin: f64) -> Vec<Coordinate> {
    vec![xy(origin, origin), xy(origin + 1.0, origin), xy(origin, origin + 1.0), xy(origin, origin)]
}

fn samples() -> Vec<Geometry> {
    vec![
        Geometry::Point(xy(220.0, 10.0)),
        Geometry::Point(xyzm(1.0, 2.0, 3.0, 4.0)),
        Geometry::LineString(vec![]),
        Geometry::LineString(vec![xy(0.0, 0.0), xy(1.0, 1.0), xy(f64::NAN, f64::INFINITY)]),
        Geometry::Polygon(vec![]),
        Geometry::Polygon(vec![ring(0.0), ring(0.25), vec![]]),
        Geometry::MultiPoint(vec![]),
        Geometry::MultiPoint(vec![xy(1.0, 2.0), xy(3.0, 4.0)]),
        Geometry::MultiLineString(vec![vec![xy(1.0, 2.0)], vec![], vec![xy(3.0, 4.0), xy(5.0, 6.0)]]),
        Geometry::MultiPolygon(vec![vec![ring(0.0)], vec![], vec![ring(5.0), ring(5.25)]]),
        Geometry::GeometryCollection(vec![]),
        Geometry::GeometryCollection(vec![
            Geometry::Point(xy(1.0, 2.0)),
            Geometry::GeometryCollection(vec![
                Geometry::MultiPolygon(vec![vec![ring(1.0)]]),
                Geometry::GeometryCollection(vec![]),
            ]),
            Geometry::LineString(vec![xy(0.0, 0.0)]),
        ]),
    ]
}

#[test]
fn walking_into_a_builder_rebuilds_the_geometry() {
    for g in samples() {
        let rebuilt = build_geometry(&g).unwrap();
        assert!(rebuilt.same_as(&g));
        assert_eq!(rebuilt, g);
    }
}

#[test]
fn structural_equality_tells_geometries_apart() {
    let all = samples();
    for (i, a) in all.iter().enumerate() {
        for (j, b) in all.iter().enumerate() {
            assert_eq!(a.same_as(b), i == j, "{:?} and {:?}", a, b);
        }
    }
    let line = Geometry::LineString(vec![xy(1.0, 2.0), xy(3.0, 4.0)]);
    assert!(!line.same_as(&Geometry::LineString(vec![xy(3.0, 4.0), xy(1.0, 2.0)])));
    assert!(!line.same_as(&Geometry::MultiPoint(vec![xy(1.0, 2.0), xy(3.0, 4.0)])));
    assert!(!Geometry::Point(xy(1.0, 2.0)).same_as(&Geometry::Point(Coordinate {
        x: 1f64.to_bits(),
        y: 2f64.to_bits(),
        z: None,
        m: Some(0),
    })));
    assert!(!Geometry::Point(xy(0.0, 0.0)).same_as(&Geometry::Point(xy(-0.0, 0.0))));
}

#[test]
fn builder_keeps_dimension_and_srid_of_the_root() {
    let g = Geometry::MultiPoint(vec![xyzm(1.0, 2.0, 3.0, 4.0)]);
    let mut builder = GeometryBuilder::new();
    assert!(builder.geometry().is_none());
    process_geometry(&g, Dimension::Xyzm, Some(4326), &mut builder).unwrap();
    assert_eq!(builder.dimension(), Dimension::Xyzm);
    assert_eq!(builder.srid(), Some(4326));
    assert_eq!(builder.geometry(), Some(&g));
    assert_eq!(builder.into_geometry(), Some(g));
}

#[test]
fn builder_holds_the_last_geometry() {
    let first = Geometry::Point(xy(1.0, 2.0));
    let second = Geometry::LineString(vec![xy(3.0, 4.0)]);
    let mut builder = GeometryBuilder::new();
    builder.dataset_begin(Some("set")).unwrap();
    builder.feature_begin(0).unwrap();
    builder.properties_begin().unwrap();
    builder.property("n", &PropertyValue::Null).unwrap();
    builder.properties_end().unwrap();
    first.process_geom(&mut builder).unwrap();
    builder.feature_end(0).unwrap();
    assert_eq!(builder.geometry(), Some(&first));
    builder.feature_begin(1).unwrap();
    second.process_geom(&mut builder).unwrap();
    builder.feature_end(1).unwrap();
    builder.dataset_end().unwrap();
    assert!(!builder.wants_properties());
    assert_eq!(builder.into_geometry(), Some(second));
}

fn sink_message(r: Result<(), GeozeroError>) -> String {
    match r {
        Err(GeozeroError::Sink { message }) => message,
        other => panic!("unexpected result {:?}", other),
    }
}

#[test]
fn builder_rejects_calls_out_of_place() {
    let mut b = GeometryBuilder::new();
    assert_eq!(sink_message(b.geometry_end()), "geometry_end: no node is ready to be closed");
    assert_eq!(sink_message(b.coordinate(xy(1.0, 1.0))), "coordinate: no open node takes this coordinate");
    assert_eq!(sink_message(b.ring_begin()), "ring_begin: no polygon is open");
    assert_eq!(sink_message(b.ring_end()), "ring_end: no ring is open");

    b.geometry_begin(GeometryKind::Point, Dimension::Xy, None).unwrap();
    assert_eq!(sink_message(b.geometry_end()), "geometry_end: no node is ready to be closed");
    assert_eq!(
        sink_message(b.geometry_begin(GeometryKind::Point, Dimension::Xy, None)),
        "geometry_begin: the open node takes no such member"
    );
    assert_eq!(
        sink_message(b.coordinate(xyzm(1.0, 2.0, 3.0, 4.0))),
        "coordinate: no open node takes this coordinate"
    );
    assert_eq!(sink_message(b.ring_begin()), "ring_begin: no polygon is open");
    b.coordinate(xy(1.0, 2.0)).unwrap();
    assert_eq!(sink_message(b.coordinate(xy(1.0, 2.0))), "coordinate: no open node takes this coordinate");
    b.geometry_end().unwrap();
    assert_eq!(b.geometry(), Some(&Geometry::Point(xy(1.0, 2.0))));

    b.geometry_begin(GeometryKind::Polygon, Dimension::Xy, None).unwrap();
    assert_eq!(sink_message(b.coordinate(xy(1.0, 2.0))), "coordinate: no open node takes this coordinate");
    assert_eq!(sink_message(b.ring_end()), "ring_end: no ring is open");
    b.ring_begin().unwrap();
    assert_eq!(sink_message(b.ring_begin()), "ring_begin: no polygon is open");
    assert_eq!(sink_message(b.geometry_end()), "geometry_end: no node is ready to be closed");
    b.coordinate(xy(1.0, 2.0)).unwrap();
    b.ring_end().unwrap();
    b.geometry_end().unwrap();
    assert_eq!(b.geometry(), Some(&Geometry::Polygon(vec![vec![xy(1.0, 2.0)]])));

    b.geometry_begin(GeometryKind::MultiPoint, Dimension::Xy, None).unwrap();
    assert_eq!(
        sink_message(b.geometry_begin(GeometryKind::LineString, Dimension::Xy, None)),
        "geometry_begin: the open node takes no such member"
    );
    assert_eq!(
        sink_message(b.geometry_begin(GeometryKind::Point, Dimension::Xyz, None)),
        "geometry_begin: the open node takes no such member"
    );
    b.geometry_begin(GeometryKind::Point, Dimension::Xy, Some(1)).unwrap();
    b.coordinate(xy(5.0, 6.0)).unwrap();
    b.geometry_end().unwrap();
    b.geometry_end().unwrap();
    assert_eq!(b.into_geometry(), Some(Geometry::MultiPoint(vec![xy(5.0, 6.0)])));
}

/// A source that has nothing to say.
struct Silent;

impl GeozeroGeometry for Silent {
    fn walk(&self) -> Walk {
        unreachable!()
    }

    fn process_geom<P: FeatureProcessor>(&self, _processor: &mut P) -> Result<(), GeozeroError> {
        Ok(())
    }
}

/// A source that closes a node that it has not opened.
struct Unbalanced;

impl GeozeroGeometry for Unbalanced {
    fn walk(&self) -> Walk {
        unreachable!()
    }

    fn process_geom<P: FeatureProcessor>(&self, processor: &mut P) -> Result<(), GeozeroError> {
        processor.geometry_end()
    }
}

#[test]
fn building_needs_a_complete_geometry() {
    match build_geometry(&Silent) {
        Err(GeozeroError::Sink { message }) => assert_eq!(message, "no geometry was completed"),
        other => panic!("unexpected result {:?}", other),
    }
    match build_geometry(&Unbalanced) {
        Err(GeozeroError::Sink { message }) => {
            assert_eq!(message, "geometry_end: no node is ready to be closed")
        }
        other => panic!("unexpected result {:?}", other),
    }
    let mixed = Geometry::MultiPoint(vec![xy(1.0, 2.0), xyzm(1.0, 2.0, 3.0, 4.0)]);
    assert!(matches!(
        build_geometry(&mixed),
        Err(GeozeroError::Decode { fault: DecodeFault::MixedDimensions, offset: 0 })
    ));
}
