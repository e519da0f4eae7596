use geozero::builder::build_geometry;
use geozero::datasource::GeozeroDatasourceReader;
use geozero::error::{DecodeFault, GeozeroError};
use geozero::event::{Call, Coordinate, Dimension, GeometryKind, PropertyValue};
use geozero::geometry::Geometry;
use geozero::geopackage::GpkgBlobs;
use geozero::processor::FeatureProcessor;
use geozero::svg::{ReadAsSvg, ToSvg};
use geozero::walker::GeozeroGeometry;
use geozero::wkb::{process_gpkg_geom, Cursor, GpkgWkb};

/// Counts the calls it receives and keeps the geometry openings.
struct Counter {
    calls: usize,
    openings: Vec<String>,
    fail_at: Option<usize>,
}

impl Counter {
    fn new() -> Counter {
        Counter { calls: 0, openings: Vec::new(), fail_at: None }
    }

    fn count(&mut self) -> Result<(), GeozeroError> {
        self.calls += 1;
        if self.fail_at == Some(self.calls) {
            return Err(GeozeroError::Sink { message: format!("call {} rejected", self.calls) });
        }
        Ok(())
    }
}

impl FeatureProcessor for Counter {
    fn wf(&self) -> bool {
        true
    }

    fn calls(&self) -> vstd::seq::Seq<Call> {
        unreachable!()
    }

    fn requests_properties(&self) -> bool {
        false
    }

    fn wants_properties(&self) -> bool {
        false
    }

    fn dataset_begin(&mut self, _name: Option<&str>) -> Result<(), GeozeroError> {
        self.count()
    }

    fn dataset_end(&mut self) -> Result<(), GeozeroError> {
        self.count()
    }

    fn feature_begin(&mut self, _index: u64) -> Result<(), GeozeroError> {
        self.count()
    }

    fn feature_end(&mut self, _index: u64) -> Result<(), GeozeroError> {
        self.count()
    }

    fn properties_begin(&mut self) -> Result<(), GeozeroError> {
        self.count()
    }

    fn property(&mut self, _name: &str, _value: &PropertyValue) -> Result<(), GeozeroError> {
        self.count()
    }

    fn properties_end(&mut self) -> Result<(), GeozeroError> {
        self.count()
    }

    fn geometry_begin(
        &mut self,
        kind: GeometryKind,
        dimension: Dimension,
        srid: Option<i32>,
    ) -> Result<(), GeozeroError> {
        self.openings.push(format!("{:?} {:?} {:?}", kind, dimension, srid));
        self.count()
    }

    fn geometry_end(&mut self) -> Result<(), GeozeroError> {
        self.count()
    }

    fn coordinate(&mut self, _c: Coordinate) -> Result<(), GeozeroError> {
        self.count()
    }

    fn ring_begin(&mut self) -> Result<(), GeozeroError> {
        self.count()
    }

    fn ring_end(&mut self) -> Result<(), GeozeroError> {
        self.count()
    }
}

fn xy(x: f64, y: f64) -> Coordinate {
    Coordinate::xy(x.to_bits(), y.to_bits())
}

fn put_u32(out: &mut Vec<u8>, v: u32, little: bool) {
    if little {
        out.extend_from_slice(&v.to_le_bytes());
    } else {
        out.extend_from_slice(&v.to_be_bytes());
    }
}

fn put_f64(out: &mut Vec<u8>, v: f64, little: bool) {
    if little {
        out.extend_from_slice(&v.to_le_bytes());
    } else {
        out.extend_from_slice(&v.to_be_bytes());
    }
}

fn header(little: bool, envelope: u8, srid: i32) -> Vec<u8> {
    let mut out = vec![0x47, 0x50, 0, (envelope << 1) | if little { 1 } else { 0 }];
    put_u32(&mut out, srid as u32, little);
    let size = match envelope {
        0 => 0,
        1 => 32,
        2 | 3 => 48,
        _ => 64,
    };
    out.resize(8 + size, 0);
    out
}

fn node(out: &mut Vec<u8>, little: bool, code: u32) {
    out.push(if little { 1 } else { 0 });
    put_u32(out, code, little);
}

fn point(out: &mut Vec<u8>, little: bool, code: u32, components: &[f64]) {
    node(out, little, code);
    for c in components {
        put_f64(out, *c, little);
    }
}

fn line(out: &mut Vec<u8>, little: bool, points: &[(f64, f64)]) {
    node(out, little, 2);
    put_u32(out, points.len() as u32, little);
    for (x, y) in points {
        put_f64(out, *x, little);
        put_f64(out, *y, little);
    }
}

fn decode_fault(blob: &[u8]) -> (DecodeFault, usize) {
    let mut sink = Counter::new();
    let mut cursor = Cursor::new(blob);
    let r = process_gpkg_geom(&mut cursor, &mut sink);
    assert_eq!(sink.calls, 0, "a malformed blob must not reach the sink");
    assert_eq!(cursor.position(), 0);
    match r {
        Err(GeozeroError::Decode { fault, offset }) => (fault, offset),
        other => panic!("unexpected result {:?}", other),
    }
}

#[test]
fn decodes_little_endian_point() {
    let mut blob = header(true, 0, 4326);
    point(&mut blob, true, 1, &[1.5, -2.0]);
    let g = Geometry::decode(&blob).unwrap();
    assert_eq!(g, Geometry::Point(xy(1.5, -2.0)));
    let mut sink = Counter::new();
    let mut cursor = Cursor::new(&blob);
    process_gpkg_geom(&mut cursor, &mut sink).unwrap();
    assert_eq!(sink.openings, vec!["Point Xy Some(4326)"]);
    assert_eq!(sink.calls, 3);
    assert_eq!(cursor.position(), blob.len());
    assert_eq!(cursor.remaining(), 0);
}

#[test]
fn decodes_big_endian_point_with_envelope() {
    let mut blob = header(false, 1, -1);
    point(&mut blob, false, 1, &[220.0, 10.0]);
    assert_eq!(blob.len(), 8 + 32 + 5 + 16);
    assert_eq!(Geometry::decode(&blob).unwrap(), Geometry::Point(xy(220.0, 10.0)));
    let mut sink = Counter::new();
    GpkgWkb(&blob).process_geom(&mut sink).unwrap();
    assert_eq!(sink.openings, vec!["Point Xy Some(-1)"]);
}

#[test]
fn decodes_mixed_byte_orders() {
    let mut blob = header(false, 0, 7);
    node(&mut blob, true, 4);
    put_u32(&mut blob, 2, true);
    point(&mut blob, false, 1, &[1.0, 2.0]);
    point(&mut blob, true, 1, &[3.0, 4.0]);
    assert_eq!(
        Geometry::decode(&blob).unwrap(),
        Geometry::MultiPoint(vec![xy(1.0, 2.0), xy(3.0, 4.0)])
    );
}

#[test]
fn decodes_every_dimensionality() {
    let mut xyz = header(true, 2, 0);
    point(&mut xyz, true, 1001, &[1.0, 2.0, 3.0]);
    assert_eq!(
        Geometry::decode(&xyz).unwrap(),
        Geometry::Point(Coordinate {
            x: 1f64.to_bits(),
            y: 2f64.to_bits(),
            z: Some(3f64.to_bits()),
            m: None
        })
    );
    let mut xym = header(true, 3, 0);
    point(&mut xym, true, 2001, &[1.0, 2.0, 4.0]);
    assert_eq!(
        Geometry::decode(&xym).unwrap(),
        Geometry::Point(Coordinate {
            x: 1f64.to_bits(),
            y: 2f64.to_bits(),
            z: None,
            m: Some(4f64.to_bits())
        })
    );
    let mut xyzm = header(true, 4, 0);
    point(&mut xyzm, true, 3001, &[1.0, 2.0, 3.0, 4.0]);
    let g = Geometry::decode(&xyzm).unwrap();
    assert_eq!(g.dims(), Dimension::Xyzm);
    assert_eq!(
        g,
        Geometry::Point(Coordinate {
            x: 1f64.to_bits(),
            y: 2f64.to_bits(),
            z: Some(3f64.to_bits()),
            m: Some(4f64.to_bits())
        })
    );
    let mut sink = Counter::new();
    GpkgWkb(&xyzm).process_geom(&mut sink).unwrap();
    assert_eq!(sink.openings, vec!["Point Xyzm Some(0)"]);
}

#[test]
fn decodes_polygon_and_collection() {
    let mut blob = header(true, 0, 4326);
    node(&mut blob, true, 7);
    put_u32(&mut blob, 3, true);
    node(&mut blob, true, 3);
    put_u32(&mut blob, 2, true);
    put_u32(&mut blob, 3, true);
    for (x, y) in [(0.0, 0.0), (4.0, 0.0), (0.0, 0.0)] {
        put_f64(&mut blob, x, true);
        put_f64(&mut blob, y, true);
    }
    put_u32(&mut blob, 0, true);
    node(&mut blob, true, 5);
    put_u32(&mut blob, 1, true);
    line(&mut blob, true, &[(1.0, 1.0), (2.0, 2.0)]);
    node(&mut blob, true, 6);
    put_u32(&mut blob, 0, true);
    let expected = Geometry::GeometryCollection(vec![
        Geometry::Polygon(vec![vec![xy(0.0, 0.0), xy(4.0, 0.0), xy(0.0, 0.0)], vec![]]),
        Geometry::MultiLineString(vec![vec![xy(1.0, 1.0), xy(2.0, 2.0)]]),
        Geometry::MultiPolygon(vec![]),
    ]);
    assert_eq!(Geometry::decode(&blob).unwrap(), expected);
    assert_eq!(build_geometry(&GpkgWkb(&blob)).unwrap(), expected);
    let mut sink = Counter::new();
    GpkgWkb(&blob).process_geom(&mut sink).unwrap();
    assert_eq!(
        sink.openings,
        vec![
            "GeometryCollection Xy Some(4326)",
            "Polygon Xy None",
            "MultiLineString Xy None",
            "LineString Xy None",
            "MultiPolygon Xy None",
        ]
    );
}

#[test]
fn cursor_stops_behind_the_blob() {
    let mut blob = header(true, 0, 1);
    point(&mut blob, true, 1, &[1.0, 2.0]);
    let first = blob.len();
    let mut second = header(true, 0, 2);
    line(&mut second, true, &[(1.0, 1.0), (2.0, 2.0)]);
    blob.extend_from_slice(&second);
    blob.extend_from_slice(&[9, 9, 9]);
    let mut cursor = Cursor::new(&blob);
    let mut sink = Counter::new();
    process_gpkg_geom(&mut cursor, &mut sink).unwrap();
    assert_eq!(cursor.position(), first);
    process_gpkg_geom(&mut cursor, &mut sink).unwrap();
    assert_eq!(cursor.position(), first + second.len());
    assert_eq!(cursor.remaining(), 3);
    let before = sink.calls;
    let r = process_gpkg_geom(&mut cursor, &mut sink);
    assert!(matches!(
        r,
        Err(GeozeroError::Decode { fault: DecodeFault::Truncated, offset }) if offset == first + second.len()
    ));
    assert_eq!(cursor.position(), first + second.len());
    assert_eq!(sink.calls, before);
}

#[test]
fn truncated_blob_fails_without_sink_calls() {
    let mut blob = header(true, 1, 4326);
    line(&mut blob, true, &[(1.0, 1.0), (2.0, 2.0), (3.0, 3.0)]);
    for cut in 0..blob.len() {
        let (fault, offset) = decode_fault(&blob[..cut]);
        assert_eq!(fault, DecodeFault::Truncated, "cut at {}", cut);
        assert!(offset <= cut);
    }
    assert_eq!(decode_fault(&blob[..5]), (DecodeFault::Truncated, 0));
    assert_eq!(decode_fault(&blob[..20]), (DecodeFault::Truncated, 8));
    assert_eq!(decode_fault(&blob[..40]), (DecodeFault::Truncated, 40));
    assert_eq!(decode_fault(&blob[..47]), (DecodeFault::Truncated, 45));
    assert_eq!(decode_fault(&blob[..70]), (DecodeFault::Truncated, 65));
    assert!(Geometry::decode(&blob).is_ok());
}

#[test]
fn malformed_headers_are_reported_where_they_are() {
    let mut blob = header(true, 0, 4326);
    point(&mut blob, true, 1, &[1.0, 2.0]);
    let mut bad = blob.clone();
    bad[1] = 0x51;
    assert_eq!(decode_fault(&bad), (DecodeFault::BadMagic, 0));
    let mut bad = blob.clone();
    bad[2] = 1;
    assert_eq!(decode_fault(&bad), (DecodeFault::UnsupportedVersion, 2));
    let mut bad = blob.clone();
    bad[3] = (5 << 1) | 1;
    assert_eq!(decode_fault(&bad), (DecodeFault::BadFlags, 3));
    let mut bad = blob.clone();
    bad[3] = 0x20 | 1;
    assert_eq!(decode_fault(&bad), (DecodeFault::BadFlags, 3));
    let mut bad = blob.clone();
    bad[8] = 2;
    assert_eq!(decode_fault(&bad), (DecodeFault::BadByteOrder, 8));
    let mut bad = blob.clone();
    bad[9] = 9;
    assert_eq!(decode_fault(&bad), (DecodeFault::UnknownGeometryType, 9));
    let mut bad = header(true, 0, 4326);
    point(&mut bad, true, 4001, &[1.0, 2.0]);
    assert_eq!(decode_fault(&bad), (DecodeFault::UnknownGeometryType, 9));
}

#[test]
fn members_must_match_kind_and_dimension() {
    let mut blob = header(true, 0, 4326);
    node(&mut blob, true, 4);
    put_u32(&mut blob, 2, true);
    point(&mut blob, true, 1, &[1.0, 2.0]);
    let member = blob.len();
    line(&mut blob, true, &[(1.0, 1.0)]);
    assert_eq!(decode_fault(&blob), (DecodeFault::UnexpectedMember, member + 1));

    let mut blob = header(true, 0, 4326);
    node(&mut blob, true, 7);
    put_u32(&mut blob, 2, true);
    point(&mut blob, true, 1, &[1.0, 2.0]);
    let member = blob.len();
    point(&mut blob, true, 1001, &[1.0, 2.0, 3.0]);
    assert_eq!(decode_fault(&blob), (DecodeFault::MixedDimensions, member + 1));
}

#[test]
fn column_decode_wraps_the_description() {
    let blob = header(true, 1, 4326);
    match Geometry::decode(&blob[..20]) {
        Err(GeozeroError::ColumnDecode { message }) => {
            assert_eq!(message, "unexpected end of input at byte 8")
        }
        other => panic!("unexpected result {:?}", other),
    }
    match Geometry::decode(&[0x47, 0x51, 0, 1, 0, 0, 0, 0, 0, 0, 0, 0, 0]) {
        Err(GeozeroError::ColumnDecode { message }) => {
            assert_eq!(message, "not a GeoPackage geometry at byte 0")
        }
        other => panic!("unexpected result {:?}", other),
    }
    let mut blob = header(true, 0, 4326);
    node(&mut blob, true, 2);
    put_u32(&mut blob, 1000, true);
    blob.resize(8 + 9 + 16 * 7, 0);
    match Geometry::decode(&blob) {
        Err(GeozeroError::ColumnDecode { message }) => {
            assert_eq!(message, "unexpected end of input at byte 129")
        }
        other => panic!("unexpected result {:?}", other),
    }
}

#[test]
fn rejecting_sink_stops_the_decoder() {
    let mut blob = header(true, 0, 4326);
    line(&mut blob, true, &[(1.0, 1.0), (2.0, 2.0), (3.0, 3.0)]);
    let mut sink = Counter::new();
    sink.fail_at = Some(3);
    let mut cursor = Cursor::new(&blob);
    let r = process_gpkg_geom(&mut cursor, &mut sink);
    match r {
        Err(GeozeroError::Sink { message }) => assert_eq!(message, "call 3 rejected"),
        other => panic!("unexpected result {:?}", other),
    }
    assert_eq!(sink.calls, 3);
    assert_eq!(cursor.position(), 0);
}

#[test]
fn blob_converts_to_svg() {
    let mut blob = header(true, 0, 4326);
    line(&mut blob, true, &[(1.0, 1.5), (2.0, -2.0)]);
    assert_eq!(GpkgWkb(&blob).to_svg().unwrap(), "<path d=\"M 1 1.5 2 -2 \"/>");
    let r = GpkgWkb(&blob[..12]).to_svg();
    assert!(matches!(r, Err(GeozeroError::Decode { fault: DecodeFault::Truncated, offset: 8 })));
}

#[test]
fn blobs_are_read_as_features() {
    let mut bytes = header(true, 0, 1);
    point(&mut bytes, true, 1, &[1.0, 2.0]);
    let mut second = header(false, 0, 2);
    point(&mut second, false, 1, &[3.0, 4.0]);
    bytes.extend_from_slice(&second);
    let svg = GpkgBlobs::read_as_svg(&bytes).unwrap();
    assert_eq!(
        svg,
        "<?xml version=\"1.0\"?>\n<svg xmlns=\"http://www.w3.org/2000/svg\" version=\"1.2\" baseProfile=\"tiny\" stroke-linecap=\"round\" stroke-linejoin=\"round\">\n<g id=\"\">\n<path d=\"M 1 2 Z\"/>\n<path d=\"M 3 4 Z\"/>\n</g>\n</svg>"
    );
    let mut sink = Counter::new();
    GpkgBlobs::read(&bytes, &mut sink).unwrap();
    assert_eq!(sink.calls, 2 + 2 * 5);
    assert_eq!(sink.openings, vec!["Point Xy Some(1)", "Point Xy Some(2)"]);

    let empty = GpkgBlobs::read_as_svg(&[]).unwrap();
    assert!(empty.ends_with("<g id=\"\">\n</g>\n</svg>"));

    bytes.push(0x47);
    let mut sink = Counter::new();
    let r = GpkgBlobs::read(&bytes, &mut sink);
    assert!(matches!(
        r,
        Err(GeozeroError::Decode { fault: DecodeFault::Truncated, offset }) if offset == bytes.len() - 1
    ));
    assert_eq!(sink.calls, 1 + 2 * 5 + 1);
    assert!(GpkgBlobs::read_as_svg(&bytes).is_err());
}
