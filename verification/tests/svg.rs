use geozero::dataset::{Dataset, Feature, Property};
use geozero::error::{DecodeFault, GeozeroError};
use geozero::event::{Coordinate, Dimension, GeometryKind, PropertyValue, Walk};
use geozero::geometry::Geometry;
use geozero::number::write_number;
use geozero::processor::FeatureProcessor;
use geozero::svg::{into_text, ProcessToSvg, SvgWriter, ToSvg};
use geozero::walker::GeozeroGeometry;

const OPEN: &str = "<?xml version=\"1.0\"?>\n<svg xmlns=\"http://www.w3.org/2000/svg\" version=\"1.2\" baseProfile=\"tiny\" stroke-linecap=\"round\" stroke-linejoin=\"round\">\n<g id=\"";
const CLOSE: &str = "\n</g>\n</svg>";

fn xy(x: f64, y: f64) -> Coordinate {
    Coordinate::xy(x.to_bits(), y.to_bits())
}

fn text_of(value: f64) -> String {
    let mut out = Vec::new();
    write_number(&mut out, value.to_bits());
    String::from_utf8(out).unwrap()
}

#[test]
fn point_to_svg_document() {
    let point = Geometry::Point(xy(220.0, 10.0));
    let svg = point.to_svg_document().unwrap();
    assert_eq!(svg, format!("{}\">\n<path d=\"M 220 10 Z\"/>{}", OPEN, CLOSE));
    assert!(svg.contains("220") && svg.contains("10"));
    assert_eq!(svg.matches("<g ").count(), 1);
    assert_eq!(svg.matches("<path ").count(), 1);
}

#[test]
fn polygon_to_svg_document() {
    let polygon = Geometry::Polygon(vec![vec![
        xy(220.0, 10.0),
        xy(300.0, 210.0),
        xy(170.0, 250.0),
        xy(123.0, 234.0),
        xy(220.0, 10.0),
    ]]);
    assert_eq!(
        polygon.to_svg_document().unwrap(),
        format!(
            "{}\">\n<path d=\"M 220 10 300 210 170 250 123 234 220 10 Z \"/>{}",
            OPEN, CLOSE
        )
    );
}

#[test]
fn every_kind_to_svg() {
    assert_eq!(Geometry::Point(xy(0.5, -1.25)).to_svg().unwrap(), "<path d=\"M 0.5 -1.25 Z\"/>");
    assert_eq!(
        Geometry::LineString(vec![xy(1.0, 2.0), xy(3.0, 4.0)]).to_svg().unwrap(),
        "<path d=\"M 1 2 3 4 \"/>"
    );
    assert_eq!(
        Geometry::Polygon(vec![vec![xy(0.0, 0.0), xy(1.0, 0.0)], vec![xy(5.0, 5.0)]])
            .to_svg()
            .unwrap(),
        "<path d=\"M 0 0 1 0 Z M 5 5 Z \"/>"
    );
    assert_eq!(
        Geometry::MultiPoint(vec![xy(1.0, 2.0), xy(3.0, 4.0)]).to_svg().unwrap(),
        "<path d=\"M 1 2 Z\"/><path d=\"M 3 4 Z\"/>"
    );
    assert_eq!(
        Geometry::MultiLineString(vec![vec![xy(1.0, 2.0)], vec![]]).to_svg().unwrap(),
        "<path d=\"M 1 2 \"/><path d=\"M \"/>"
    );
    assert_eq!(
        Geometry::MultiPolygon(vec![vec![vec![xy(1.0, 2.0)]]]).to_svg().unwrap(),
        "<path d=\"M 1 2 Z \"/>"
    );
    assert_eq!(
        Geometry::GeometryCollection(vec![
            Geometry::Point(xy(1.0, 2.0)),
            Geometry::GeometryCollection(vec![Geometry::LineString(vec![xy(3.0, 4.0)])]),
        ])
        .to_svg()
        .unwrap(),
        "<path d=\"M 1 2 Z\"/><path d=\"M 3 4 \"/>"
    );
    assert_eq!(Geometry::GeometryCollection(vec![]).to_svg().unwrap(), "");
}

#[test]
fn mixed_dimensions_fail_the_conversion() {
    let mixed = Geometry::LineString(vec![
        xy(1.0, 2.0),
        Coordinate { x: 0, y: 0, z: Some(0), m: None },
    ]);
    assert!(matches!(
        mixed.to_svg(),
        Err(GeozeroError::Decode { fault: DecodeFault::MixedDimensions, offset: 0 })
    ));
    assert!(matches!(
        mixed.to_svg_document(),
        Err(GeozeroError::Decode { fault: DecodeFault::MixedDimensions, offset: 0 })
    ));
}

/// A source that closes a node that it has not opened.
struct Unbalanced;

impl GeozeroGeometry for Unbalanced {
    fn walk(&self) -> Walk {
        unreachable!()
    }

    fn process_geom<P: FeatureProcessor>(&self, processor: &mut P) -> Result<(), GeozeroError> {
        processor.geometry_end()
    }
}

#[test]
fn writer_rejects_a_closing_without_an_opening() {
    match Unbalanced.to_svg() {
        Err(GeozeroError::Sink { message }) => assert_eq!(message, "geometry_end: no node is open"),
        other => panic!("unexpected result {:?}", other),
    }
    let mut writer = SvgWriter::<false>::new();
    assert!(writer.ring_end().is_ok());
    assert!(writer.geometry_begin(GeometryKind::Point, Dimension::Xy, None).is_ok());
    assert!(writer.geometry_end().is_ok());
    assert!(writer.geometry_end().is_err());
    assert!(!writer.wants_properties());
    assert_eq!(writer.into_bytes(), b"Z <path d=\"M Z\"/>".to_vec());
}

#[test]
fn writer_inverts_y_on_request() {
    let line = Geometry::LineString(vec![xy(1.0, 2.0), xy(3.0, -4.5), xy(0.0, 0.0)]);
    let mut writer = SvgWriter::<true>::new();
    line.process_geom(&mut writer).unwrap();
    assert_eq!(
        String::from_utf8(writer.into_bytes()).unwrap(),
        "<path d=\"M 1 -2 3 4.5 0 -0 \"/>"
    );
}

#[test]
fn dataset_to_svg() {
    let mut dataset = Dataset {
        name: Some("pläne".to_string()),
        srid: None,
        features: vec![
            Feature {
                geometry: Geometry::Point(xy(1.0, 2.0)),
                properties: vec![Property { name: "a".to_string(), value: PropertyValue::Number(1) }],
            },
            Feature { geometry: Geometry::LineString(vec![xy(3.0, 4.0)]), properties: vec![] },
        ],
    };
    assert_eq!(
        dataset.to_svg().unwrap(),
        format!("{}pläne\">\n<path d=\"M 1 2 Z\"/>\n<path d=\"M 3 4 \"/>{}", OPEN, CLOSE)
    );
}

#[test]
fn empty_dataset_to_svg() {
    let mut dataset = Dataset { name: None, srid: None, features: Vec::new() };
    assert_eq!(dataset.to_svg().unwrap(), format!("{}\">{}", OPEN, CLOSE));
}

#[test]
fn text_must_be_valid_utf8() {
    assert_eq!(into_text(b"<svg/>".to_vec()).unwrap(), "<svg/>");
    assert_eq!(into_text("grüße".as_bytes().to_vec()).unwrap(), "grüße");
    assert_eq!(into_text(Vec::new()).unwrap(), "");
    match into_text(vec![0x3c, 0xff, 0x3e]) {
        Err(GeozeroError::Encoding { message }) => assert_eq!(message, "Invalid UTF-8 encoding"),
        other => panic!("unexpected result {:?}", other),
    }
    assert!(into_text(vec![0xc3]).is_err());
}

#[test]
fn numbers_are_written_in_full() {
    assert_eq!(text_of(0.0), "0");
    assert_eq!(text_of(-0.0), "-0");
    assert_eq!(text_of(1.0), "1");
    assert_eq!(text_of(220.0), "220");
    assert_eq!(text_of(-10.0), "-10");
    assert_eq!(text_of(0.5), "0.5");
    assert_eq!(text_of(-1.25), "-1.25");
    assert_eq!(text_of(0.0078125), "0.0078125");
    assert_eq!(text_of(1234.5), "1234.5");
    assert_eq!(text_of(4503599627370496.0), "4503599627370496");
    assert_eq!(text_of(9007199254740993.0), "9007199254740992");
    assert_eq!(text_of(1e21), "1000000000000000000000");
    assert_eq!(text_of(0.1), "0.1000000000000000055511151231257827021181583404541015625");
    assert_eq!(text_of(f64::NAN), "NaN");
    assert_eq!(text_of(f64::INFINITY), "inf");
    assert_eq!(text_of(f64::NEG_INFINITY), "-inf");
}

#[test]
fn numbers_read_back_as_written() {
    let values = [
        1.0,
        -1.0,
        0.1,
        0.3,
        -123.456,
        3.141592653589793,
        1e-7,
        1e16,
        1.7976931348623157e308,
        2.2250738585072014e-308,
        5e-324,
        -2.5e-310,
        6.02214076e23,
        123456789.12345679,
    ];
    for value in values {
        let text = text_of(value);
        assert!(!text.contains('e') && !text.ends_with('.'));
        assert_eq!(text.parse::<f64>().unwrap().to_bits(), value.to_bits(), "{}", text);
    }
    let smallest = text_of(5e-324);
    assert_eq!(smallest.len(), 2 + 1074);
    assert!(smallest.starts_with("0.000"));
    assert!(smallest.ends_with("3447265625"));
    assert_eq!(smallest.trim_start_matches("0.").trim_start_matches('0').len(), 751);
    let largest = text_of(f64::MAX);
    assert_eq!(largest.len(), 309);
    assert!(largest.starts_with("17976931348623157081"));
}
