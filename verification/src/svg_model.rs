//! The SVG writer as a state machine: which markup each call appends.
use vstd::prelude::*;
use vstd::utf8::encode_utf8;
use crate::event::{Coordinate, Dimension, Event, GeometryKind};
use crate::geometry::{coordinate_events, members_events, ring_events, rings_events, Shape};
use crate::machine::{lemma_run_concat, lemma_run_one, lemma_run_push, run, SinkMachine};
use crate::number::number_text;

verus! {

/// The bit pattern of the negative of the double with the given bit pattern.
pub open spec fn negated(bits: u64) -> u64 {
    if bits >= 0x8000_0000_0000_0000 {
        (bits - 0x8000_0000_0000_0000) as u64
    } else {
        (bits + 0x8000_0000_0000_0000) as u64
    }
}

/// The markup that opens a document and its group, named or not.
pub open spec fn document_open(name: Option<Seq<char>>) -> Seq<u8> {
    encode_utf8(
        "<?xml version=\"1.0\"?>\n<svg xmlns=\"http://www.w3.org/2000/svg\" version=\"1.2\" baseProfile=\"tiny\" stroke-linecap=\"round\" stroke-linejoin=\"round\">\n<g id=\""@,
    ) + encode_utf8(
        match name {
            Some(n) => n,
            None => Seq::empty(),
        },
    ) + encode_utf8("\">"@)
}

/// The markup that closes the group and the document.
pub open spec fn document_close() -> Seq<u8> {
    encode_utf8("\n</g>\n</svg>"@)
}

/// The markup that opens a node: a path for a point, line or polygon,
/// nothing for a composite.
pub open spec fn node_open(kind: GeometryKind) -> Seq<u8> {
    match kind {
        GeometryKind::Point => encode_utf8("<path d=\"M "@),
        GeometryKind::LineString => encode_utf8("<path d=\"M "@),
        GeometryKind::Polygon => encode_utf8("<path d=\""@),
        _ => Seq::empty(),
    }
}

/// The markup that closes a node.
pub open spec fn node_close(kind: GeometryKind) -> Seq<u8> {
    match kind {
        GeometryKind::Point => encode_utf8("Z\"/>"@),
        GeometryKind::LineString => encode_utf8("\"/>"@),
        GeometryKind::Polygon => encode_utf8("\"/>"@),
        _ => Seq::empty(),
    }
}

/// The path data of one coordinate: X and Y, each followed by a blank. With
/// `invert_y` the negative of Y is written. Z and M are not drawn.
pub open spec fn coordinate_text(c: Coordinate, invert_y: bool) -> Seq<u8> {
    number_text(c.x) + seq![32u8] + number_text(
        if invert_y {
            negated(c.y)
        } else {
            c.y
        },
    ) + seq![32u8]
}

/// The state of an SVG writer.
pub struct SvgModel {
    /// The markup written so far.
    pub out: Seq<u8>,
    /// The kinds of the open nodes, outermost first.
    pub open: Seq<GeometryKind>,
    /// Whether Y is written negated, for a Y axis that points down.
    pub invert_y: bool,
}

impl SvgModel {
    /// The state of a writer that has not been called.
    pub open spec fn initial(invert_y: bool) -> SvgModel {
        SvgModel { out: Seq::empty(), open: Seq::empty(), invert_y }
    }

    /// This state with more markup written.
    pub open spec fn wrote(self, markup: Seq<u8>) -> SvgModel {
        SvgModel { out: self.out + markup, ..self }
    }

    /// The state after one call, or `None` where the writer rejects the
    /// call: it rejects the closing bracket of a node where none is open.
    pub open spec fn step(self, event: Event) -> Option<SvgModel> {
        match event {
            Event::DatasetBegin(name) => Some(self.wrote(document_open(name))),
            Event::DatasetEnd => Some(self.wrote(document_close())),
            Event::FeatureBegin(_) => Some(self.wrote(encode_utf8("\n"@))),
            Event::GeometryBegin(kind, _, _) => Some(
                SvgModel { out: self.out + node_open(kind), open: self.open.push(kind), ..self },
            ),
            Event::GeometryEnd => if self.open.len() > 0 {
                Some(
                    SvgModel {
                        out: self.out + node_close(self.open.last()),
                        open: self.open.drop_last(),
                        ..self
                    },
                )
            } else {
                None
            },
            Event::Coordinate(c) => Some(self.wrote(coordinate_text(c, self.invert_y))),
            Event::RingBegin => Some(self.wrote(encode_utf8("M "@))),
            Event::RingEnd => Some(self.wrote(encode_utf8("Z "@))),
            _ => Some(self),
        }
    }
}

impl SinkMachine for SvgModel {
    open spec fn next(self, event: Event) -> Option<SvgModel> {
        self.step(event)
    }
}

/// The path data of the first `n` of the given coordinates.
pub open spec fn coordinates_svg(coordinates: Seq<Coordinate>, n: nat, invert_y: bool) -> Seq<u8>
    decreases n,
{
    if n == 0 || n > coordinates.len() {
        Seq::empty()
    } else {
        coordinates_svg(coordinates, (n - 1) as nat, invert_y) + coordinate_text(
            coordinates[n - 1],
            invert_y,
        )
    }
}

/// The path data of one ring: a closed subpath.
pub open spec fn ring_svg(ring: Seq<Coordinate>, invert_y: bool) -> Seq<u8> {
    encode_utf8("M "@) + coordinates_svg(ring, ring.len(), invert_y) + encode_utf8("Z "@)
}

/// The path data of the first `n` of the given rings.
pub open spec fn rings_svg(rings: Seq<Seq<Coordinate>>, n: nat, invert_y: bool) -> Seq<u8>
    decreases n,
{
    if n == 0 || n > rings.len() {
        Seq::empty()
    } else {
        rings_svg(rings, (n - 1) as nat, invert_y) + ring_svg(rings[n - 1], invert_y)
    }
}

/// The markup of the first `n` of the given members.
pub open spec fn members_svg(members: Seq<Shape>, n: nat, invert_y: bool) -> Seq<u8>
    decreases members, n,
{
    if n == 0 || n > members.len() {
        Seq::empty()
    } else {
        members_svg(members, (n - 1) as nat, invert_y) + shape_svg(members[n - 1], invert_y)
    }
}

/// The markup of a geometry: one path for a point, a line or a polygon with
/// all its rings, and the markup of its members for a composite, whose own
/// node leaves no markup.
pub open spec fn shape_svg(shape: Shape, invert_y: bool) -> Seq<u8>
    decreases shape, 0nat,
{
    match shape {
        Shape::Point(c) => node_open(GeometryKind::Point) + coordinate_text(c, invert_y)
            + node_close(GeometryKind::Point),
        Shape::LineString(coordinates) => node_open(GeometryKind::LineString) + coordinates_svg(
            coordinates,
            coordinates.len(),
            invert_y,
        ) + node_close(GeometryKind::LineString),
        Shape::Polygon(rings) => node_open(GeometryKind::Polygon) + rings_svg(
            rings,
            rings.len(),
            invert_y,
        ) + node_close(GeometryKind::Polygon),
        Shape::Multi(kind, members) => node_open(kind) + members_svg(
            members,
            members.len(),
            invert_y,
        ) + node_close(kind),
    }
}

/// A writer takes any number of coordinates and writes their path data.
pub proof fn lemma_svg_coordinates(state: SvgModel, coordinates: Seq<Coordinate>, n: nat)
    requires
        n <= coordinates.len(),
    ensures
        run(state, coordinate_events(coordinates.take(n as int))) == Some(
            state.wrote(coordinates_svg(coordinates, n, state.invert_y)),
        ),
    decreases n,
{
    if n == 0 {
        assert(coordinate_events(coordinates.take(0)) =~= Seq::<Event>::empty());
        assert(state.out + Seq::<u8>::empty() =~= state.out);
    } else {
        let m = (n - 1) as nat;
        lemma_svg_coordinates(state, coordinates, m);
        let c = coordinates[n - 1];
        let front = coordinate_events(coordinates.take(m as int));
        assert(coordinate_events(coordinates.take(n as int)) =~= front.push(Event::Coordinate(c)));
        lemma_run_push(state, front, Event::Coordinate(c));
        assert((state.out + coordinates_svg(coordinates, m, state.invert_y)) + coordinate_text(
            c,
            state.invert_y,
        ) =~= state.out + coordinates_svg(coordinates, n, state.invert_y));
    }
}

/// A writer takes any number of rings and writes their path data.
pub proof fn lemma_svg_rings(state: SvgModel, rings: Seq<Seq<Coordinate>>, n: nat)
    requires
        n <= rings.len(),
    ensures
        run(state, rings_events(rings, n)) == Some(
            state.wrote(rings_svg(rings, n, state.invert_y)),
        ),
    decreases n,
{
    if n == 0 {
        assert(state.out + Seq::<u8>::empty() =~= state.out);
    } else {
        let m = (n - 1) as nat;
        let ring = rings[n - 1];
        let flip = state.invert_y;
        lemma_svg_rings(state, rings, m);
        let s0 = state.wrote(rings_svg(rings, m, flip));
        let s1 = s0.wrote(encode_utf8("M "@));
        let s2 = s1.wrote(coordinates_svg(ring, ring.len(), flip));
        let s3 = s2.wrote(encode_utf8("Z "@));
        let front = rings_events(rings, m);
        lemma_run_push(state, front, Event::RingBegin);
        lemma_svg_coordinates(s1, ring, ring.len());
        assert(ring.take(ring.len() as int) =~= ring);
        lemma_run_concat(state, front.push(Event::RingBegin), coordinate_events(ring));
        let filled = front.push(Event::RingBegin) + coordinate_events(ring);
        lemma_run_push(state, filled, Event::RingEnd);
        assert(filled.push(Event::RingEnd) =~= front + ring_events(ring));
        assert(s3.out =~= state.out + rings_svg(rings, n, flip));
    }
}

/// A writer accepts the canonical calls of any geometry and writes the
/// markup of the geometry; the nodes that were open are open again.
pub proof fn lemma_svg_shape(
    state: SvgModel,
    shape: Shape,
    dimension: Dimension,
    srid: Option<i32>,
)
    ensures
        run(state, shape.events(dimension, srid)) == Some(
            state.wrote(shape_svg(shape, state.invert_y)),
        ),
    decreases shape, 1nat,
{
    let flip = state.invert_y;
    let kind = shape.kind();
    let begin = Event::GeometryBegin(kind, dimension, srid);
    let body = shape.body(dimension);
    let s1 = SvgModel { out: state.out + node_open(kind), open: state.open.push(kind), ..state };
    lemma_run_one(state, begin);
    let inner = match shape {
        Shape::Point(c) => coordinate_text(c, flip),
        Shape::LineString(coordinates) => coordinates_svg(coordinates, coordinates.len(), flip),
        Shape::Polygon(rings) => rings_svg(rings, rings.len(), flip),
        Shape::Multi(_, members) => members_svg(members, members.len(), flip),
    };
    let s2 = s1.wrote(inner);
    assert(run(s1, body) == Some(s2)) by {
        if shape is Point {
            lemma_run_one(s1, Event::Coordinate(shape->Point_0));
        } else if shape is LineString {
            let coordinates = shape->LineString_0;
            lemma_svg_coordinates(s1, coordinates, coordinates.len());
            assert(coordinates.take(coordinates.len() as int) =~= coordinates);
        } else if shape is Polygon {
            lemma_svg_rings(s1, shape->Polygon_0, shape->Polygon_0.len());
        } else {
            lemma_svg_members(s1, shape->Multi_1, shape->Multi_1.len(), dimension);
        }
    }
    lemma_run_concat(state, seq![begin], body);
    lemma_run_push(state, seq![begin] + body, Event::GeometryEnd);
    assert((seq![begin] + body).push(Event::GeometryEnd) =~= shape.events(dimension, srid));
    let s3 = s2.step(Event::GeometryEnd)->Some_0;
    assert(s2.open.last() == kind);
    assert(s3.open =~= state.open);
    assert(s3.out =~= state.out + shape_svg(shape, flip));
}

/// A writer takes any number of members and writes their markup.
pub proof fn lemma_svg_members(
    state: SvgModel,
    members: Seq<Shape>,
    n: nat,
    dimension: Dimension,
)
    requires
        n <= members.len(),
    ensures
        run(state, members_events(members, n, dimension)) == Some(
            state.wrote(members_svg(members, n, state.invert_y)),
        ),
    decreases members, n,
{
    if n == 0 {
        assert(state.out + Seq::<u8>::empty() =~= state.out);
    } else {
        let m = (n - 1) as nat;
        let member = members[n - 1];
        lemma_svg_members(state, members, m, dimension);
        let s0 = state.wrote(members_svg(members, m, state.invert_y));
        lemma_svg_shape(s0, member, dimension, None);
        lemma_run_concat(
            state,
            members_events(members, m, dimension),
            member.events(dimension, None),
        );
        assert(s0.wrote(shape_svg(member, state.invert_y)).out =~= state.out + members_svg(
            members,
            n,
            state.invert_y,
        ));
    }
}

} // verus!
