use geozero::dataset::{Dataset, Feature, Property};
use geozero::datasource::GeozeroDatasource;
use geozero::error::{DecodeFault, GeozeroError};
use geozero::event::{Call, Coordinate, Dimension, GeometryKind, PropertyValue};
use geozero::geometry::Geometry;
use geozero::processor::{FeatureProcessor, ProcessorSink};
use geozero::walker::{process_geometry, GeozeroGeometry};

/// Records every call as a line of text, and rejects the coordinate call
/// with the given ordinal, if one is given.
struct Recorder {
    lines: Vec<String>,
    coordinates: usize,
    fail_at_coordinate: Option<usize>,
    properties: bool,
}

impl Recorder {
    fn new() -> Recorder {
        Recorder { lines: Vec::new(), coordinates: 0, fail_at_coordinate: None, properties: false }
    }

    fn failing_at(n: usize) -> Recorder {
        Recorder { lines: Vec::new(), coordinates: 0, fail_at_coordinate: Some(n), properties: false }
    }

    fn with_properties() -> Recorder {
        Recorder { lines: Vec::new(), coordinates: 0, fail_at_coordinate: None, properties: true }
    }

    fn log(&mut self, line: String) -> Result<(), GeozeroError> {
        self.lines.push(line);
        Ok(())
    }
}

impl FeatureProcessor for Recorder {
    fn wf(&self) -> bool {
        true
    }

    fn calls(&self) -> vstd::seq::Seq<Call> {
        unreachable!()
    }

    fn requests_properties(&self) -> bool {
        self.properties
    }

    fn wants_properties(&self) -> bool {
        self.properties
    }

    fn dataset_begin(&mut self, name: Option<&str>) -> Result<(), GeozeroError> {
        self.log(format!("dataset_begin {:?}", name))
    }

    fn dataset_end(&mut self) -> Result<(), GeozeroError> {
        self.log(format!("dataset_end"))
    }

    fn feature_begin(&mut self, index: u64) -> Result<(), GeozeroError> {
        self.log(format!("feature_begin {}", index))
    }

    fn feature_end(&mut self, index: u64) -> Result<(), GeozeroError> {
        self.log(format!("feature_end {}", index))
    }

    fn properties_begin(&mut self) -> Result<(), GeozeroError> {
        self.log(format!("properties_begin"))
    }

    fn property(&mut self, name: &str, value: &PropertyValue) -> Result<(), GeozeroError> {
        self.log(format!("property {} {:?}", name, value))
    }

    fn properties_end(&mut self) -> Result<(), GeozeroError> {
        self.log(format!("properties_end"))
    }

    fn geometry_begin(
        &mut self,
        kind: GeometryKind,
        dimension: Dimension,
        srid: Option<i32>,
    ) -> Result<(), GeozeroError> {
        self.log(format!("geometry_begin {:?} {:?} {:?}", kind, dimension, srid))
    }

    fn geometry_end(&mut self) -> Result<(), GeozeroError> {
        self.log(format!("geometry_end"))
    }

    fn coordinate(&mut self, c: Coordinate) -> Result<(), GeozeroError> {
        self.coordinates += 1;
        if self.fail_at_coordinate == Some(self.coordinates) {
            return Err(GeozeroError::Sink { message: format!("coordinate {} rejected", self.coordinates) });
        }
        self.log(format!("coordinate {} {}", f64::from_bits(c.x), f64::from_bits(c.y)))
    }

    fn ring_begin(&mut self) -> Result<(), GeozeroError> {
        self.log(format!("ring_begin"))
    }

    fn ring_end(&mut self) -> Result<(), GeozeroError> {
        self.log(format!("ring_end"))
    }
}

fn xy(x: f64, y: f64) -> Coordinate {
    Coordinate::xy(x.to_bits(), y.to_bits())
}

fn xyz(x: f64, y: f64, z: f64) -> Coordinate {
    Coordinate { x: x.to_bits(), y: y.to_bits(), z: Some(z.to_bits()), m: None }
}

fn square(origin: f64, side: f64) -> Vec<Coordinate> {
    vec![
        xy(origin, origin),
        xy(origin + side, origin),
        xy(origin + side, origin + side),
        xy(origin, origin + side),
        xy(origin, origin),
    ]
}

#[test]
fn polygon_rings_are_emitted_exterior_first() {
    let exterior = square(0.0, 10.0);
    let hole = vec![xy(2.0, 2.0), xy(4.0, 2.0), xy(4.0, 4.0), xy(2.0, 2.0)];
    let polygon = Geometry::Polygon(vec![exterior, hole]);
    let mut sink = Recorder::new();
    polygon.process_geom(&mut sink).unwrap();
    assert_eq!(
        sink.lines,
        vec![
            "geometry_begin Polygon Xy None",
            "ring_begin",
            "coordinate 0 0",
            "coordinate 10 0",
            "coordinate 10 10",
            "coordinate 0 10",
            "coordinate 0 0",
            "ring_end",
            "ring_begin",
            "coordinate 2 2",
            "coordinate 4 2",
            "coordinate 4 4",
            "coordinate 2 2",
            "ring_end",
            "geometry_end",
        ]
    );
}

#[test]
fn rejected_third_coordinate_aborts_the_walk() {
    let line = Geometry::LineString(vec![xy(1.0, 1.0), xy(2.0, 2.0), xy(3.0, 3.0), xy(4.0, 4.0)]);
    let mut dataset = Dataset {
        name: None,
        srid: None,
        features: vec![Feature { geometry: line, properties: Vec::new() }],
    };
    let mut sink = Recorder::failing_at(3);
    let r = dataset.process(&mut sink);
    match r {
        Err(GeozeroError::Sink { message }) => assert_eq!(message, "coordinate 3 rejected"),
        other => panic!("unexpected result {:?}", other),
    }
    assert_eq!(
        sink.lines,
        vec![
            "dataset_begin None",
            "feature_begin 0",
            "geometry_begin LineString Xy None",
            "coordinate 1 1",
            "coordinate 2 2",
        ]
    );
    assert_eq!(sink.coordinates, 3);
}

#[test]
fn composite_opens_one_node_per_member() {
    let multi = Geometry::MultiLineString(vec![
        vec![xy(0.0, 0.0), xy(1.0, 1.0)],
        vec![xy(2.0, 2.0), xy(3.0, 3.0)],
        vec![],
    ]);
    let mut sink = Recorder::new();
    multi.process_geom(&mut sink).unwrap();
    let mut depth = 0;
    let mut peak = 0;
    let mut members = 0;
    for line in &sink.lines {
        if line.starts_with("geometry_begin") {
            if depth == 1 {
                members += 1;
                assert_eq!(line, "geometry_begin LineString Xy None");
            }
            depth += 1;
            peak = peak.max(depth);
        } else if line == "geometry_end" {
            depth -= 1;
        }
    }
    assert_eq!(depth, 0);
    assert_eq!(members, 3);
    assert_eq!(peak, 2);
    assert_eq!(sink.lines.len(), 2 + 3 * 2 + 4);
}

#[test]
fn collection_nests_as_deep_as_its_members() {
    let inner = Geometry::GeometryCollection(vec![
        Geometry::Point(xy(1.0, 2.0)),
        Geometry::MultiPoint(vec![xy(3.0, 4.0), xy(5.0, 6.0)]),
    ]);
    let outer = Geometry::GeometryCollection(vec![inner, Geometry::LineString(vec![])]);
    let mut sink = Recorder::new();
    outer.process_geom(&mut sink).unwrap();
    assert_eq!(
        sink.lines,
        vec![
            "geometry_begin GeometryCollection Xy None",
            "geometry_begin GeometryCollection Xy None",
            "geometry_begin Point Xy None",
            "coordinate 1 2",
            "geometry_end",
            "geometry_begin MultiPoint Xy None",
            "geometry_begin Point Xy None",
            "coordinate 3 4",
            "geometry_end",
            "geometry_begin Point Xy None",
            "coordinate 5 6",
            "geometry_end",
            "geometry_end",
            "geometry_end",
            "geometry_begin LineString Xy None",
            "geometry_end",
            "geometry_end",
        ]
    );
}

#[test]
fn mixed_dimensions_are_refused_before_any_call() {
    let line = Geometry::LineString(vec![xy(1.0, 1.0), xyz(2.0, 2.0, 2.0)]);
    assert_eq!(line.dims(), Dimension::Xy);
    assert!(!line.is_uniform(Dimension::Xy));
    assert!(!line.is_uniform(Dimension::Xyz));
    let mut sink = Recorder::new();
    let r = line.process_geom(&mut sink);
    assert!(matches!(
        r,
        Err(GeozeroError::Decode { fault: DecodeFault::MixedDimensions, offset: 0 })
    ));
    assert!(sink.lines.is_empty());
}

#[test]
fn walk_declares_the_expected_dimension_and_srid() {
    let point = Geometry::Point(xyz(1.0, 2.0, 3.0));
    assert_eq!(point.dims(), Dimension::Xyz);
    let mut sink = Recorder::new();
    process_geometry(&point, Dimension::Xyz, Some(4326), &mut sink).unwrap();
    assert_eq!(
        sink.lines,
        vec!["geometry_begin Point Xyz Some(4326)", "coordinate 1 2", "geometry_end"]
    );
    let mut other = Recorder::new();
    let r = process_geometry(&point, Dimension::Xy, None, &mut other);
    assert!(matches!(
        r,
        Err(GeozeroError::Decode { fault: DecodeFault::MixedDimensions, offset: 0 })
    ));
    assert!(other.lines.is_empty());
}

#[test]
fn geometry_without_coordinates_is_two_dimensional() {
    assert_eq!(Geometry::LineString(vec![]).dims(), Dimension::Xy);
    assert_eq!(Geometry::Polygon(vec![vec![]]).dims(), Dimension::Xy);
    assert_eq!(Geometry::GeometryCollection(vec![]).dims(), Dimension::Xy);
    assert_eq!(
        Geometry::MultiPolygon(vec![vec![vec![xyz(1.0, 1.0, 1.0)]]]).dims(),
        Dimension::Xyz
    );
}

#[test]
fn dimension_counts_components() {
    assert_eq!(Dimension::Xy.count(), 2);
    assert_eq!(Dimension::Xyz.count(), 3);
    assert_eq!(Dimension::Xym.count(), 3);
    assert_eq!(Dimension::Xyzm.count(), 4);
    assert_eq!(Dimension::of(true, false), Dimension::Xyz);
    assert_eq!(Dimension::of(false, true), Dimension::Xym);
    assert!(Dimension::Xyzm.with_z() && Dimension::Xyzm.with_m());
    assert!(!Dimension::Xy.with_z() && !Dimension::Xy.with_m());
    let c = Coordinate { x: 0, y: 0, z: None, m: Some(7) };
    assert_eq!(c.dims(), Dimension::Xym);
}

#[test]
fn kinds_admit_their_members() {
    assert!(GeometryKind::MultiPoint.accepts_member(GeometryKind::Point));
    assert!(!GeometryKind::MultiPoint.accepts_member(GeometryKind::LineString));
    assert!(GeometryKind::MultiLineString.accepts_member(GeometryKind::LineString));
    assert!(GeometryKind::MultiPolygon.accepts_member(GeometryKind::Polygon));
    assert!(GeometryKind::GeometryCollection.accepts_member(GeometryKind::GeometryCollection));
    assert!(!GeometryKind::Point.accepts_member(GeometryKind::Point));
    assert!(GeometryKind::GeometryCollection.composite());
    assert!(!GeometryKind::Polygon.composite());
}

#[test]
fn empty_dataset_has_only_its_brackets() {
    let mut dataset = Dataset { name: Some("empty".to_string()), srid: None, features: Vec::new() };
    let mut sink = Recorder::new();
    dataset.process(&mut sink).unwrap();
    assert_eq!(sink.lines, vec!["dataset_begin Some(\"empty\")", "dataset_end"]);
}

#[test]
fn dataset_reports_features_in_order() {
    let features = vec![
        Feature {
            geometry: Geometry::Point(xy(1.0, 2.0)),
            properties: vec![
                Property { name: "name".to_string(), value: PropertyValue::Text("a".to_string()) },
                Property { name: "ok".to_string(), value: PropertyValue::Bool(true) },
            ],
        },
        Feature { geometry: Geometry::Point(xy(3.0, 4.0)), properties: Vec::new() },
    ];
    let mut dataset = Dataset { name: None, srid: Some(3857), features };
    let mut plain = Recorder::new();
    dataset.process(&mut plain).unwrap();
    assert_eq!(
        plain.lines,
        vec![
            "dataset_begin None",
            "feature_begin 0",
            "geometry_begin Point Xy Some(3857)",
            "coordinate 1 2",
            "geometry_end",
            "feature_end 0",
            "feature_begin 1",
            "geometry_begin Point Xy Some(3857)",
            "coordinate 3 4",
            "geometry_end",
            "feature_end 1",
            "dataset_end",
        ]
    );
    let mut asking = Recorder::with_properties();
    dataset.process(&mut asking).unwrap();
    assert_eq!(
        asking.lines,
        vec![
            "dataset_begin None",
            "feature_begin 0",
            "properties_begin",
            "property name Text(\"a\")",
            "property ok Bool(true)",
            "properties_end",
            "geometry_begin Point Xy Some(3857)",
            "coordinate 1 2",
            "geometry_end",
            "feature_end 0",
            "feature_begin 1",
            "geometry_begin Point Xy Some(3857)",
            "coordinate 3 4",
            "geometry_end",
            "feature_end 1",
            "dataset_end",
        ]
    );
}

#[test]
fn failing_feature_aborts_the_dataset() {
    let features = vec![
        Feature { geometry: Geometry::Point(xy(1.0, 2.0)), properties: Vec::new() },
        Feature {
            geometry: Geometry::LineString(vec![xy(1.0, 1.0), xyz(2.0, 2.0, 2.0)]),
            properties: Vec::new(),
        },
        Feature { geometry: Geometry::Point(xy(5.0, 6.0)), properties: Vec::new() },
    ];
    let mut dataset = Dataset { name: None, srid: None, features };
    let mut sink = Recorder::new();
    let r = dataset.process(&mut sink);
    assert!(matches!(
        r,
        Err(GeozeroError::Decode { fault: DecodeFault::MixedDimensions, offset: 0 })
    ));
    assert_eq!(sink.lines.last().unwrap(), "feature_begin 1");
    assert_eq!(sink.lines.len(), 7);
}

#[test]
fn processor_sink_accepts_everything() {
    let mut sink = ProcessorSink::new();
    assert!(!sink.wants_properties());
    assert!(sink.geometry_end().is_ok());
    assert!(sink.ring_end().is_ok());
    assert!(sink.coordinate(xy(1.0, 1.0)).is_ok());
    let polygon = Geometry::Polygon(vec![square(0.0, 1.0)]);
    assert!(polygon.process_geom(&mut sink).is_ok());
}
