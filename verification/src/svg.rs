//! SVG conversions.
use vstd::prelude::*;
use vstd::utf8::{decode_utf8, encode_utf8, encode_utf8_valid_utf8, valid_utf8, valid_utf8_concat};
use crate::datasource::{GeozeroDatasource, GeozeroDatasourceReader};
use crate::error::{ErrorModel, GeozeroError};
use crate::event::{
    delivered, lemma_delivered_abort, lemma_delivered_both, lemma_delivered_one, name_model, Call,
    Coordinate, Dimension, Event, GeometryKind, PropertyValue, Walk,
};
use crate::machine::{
    answered, lemma_machine_delivered, lemma_machine_rejected, lemma_replay_push, replay, run,
};
use crate::number::{ascii, lemma_ascii_is_utf8, lemma_number_text_ascii, write_number};
use crate::processor::{recorded, FeatureProcessor};
use crate::svg_model::{coordinate_text, document_open, SvgModel};
use crate::walker::GeozeroGeometry;

verus! {

/// The error with which an SVG writer rejects a call.
pub open spec fn refusal() -> ErrorModel {
    ErrorModel::Sink { message: "geometry_end: no node is open"@ }
}

/// Whether every rejected call among `calls` was rejected with [`refusal`].
pub open spec fn refusals_only(calls: Seq<Call>) -> bool {
    forall|i: int|
        0 <= i < calls.len() && (#[trigger] calls[i]).outcome is Err
            ==> calls[i].outcome->Err_0@ == refusal()
}

/// A sink that writes the geometries it is told about as SVG markup. With
/// `INVERT_Y` it writes the negative of every Y, for a Y axis that points down.
pub struct SvgWriter<const INVERT_Y: bool> {
    out: Vec<u8>,
    open: Vec<GeometryKind>,
    calls: Ghost<Seq<Call>>,
}

impl<const INVERT_Y: bool> View for SvgWriter<INVERT_Y> {
    type V = SvgModel;

    closed spec fn view(&self) -> SvgModel {
        SvgModel { out: self.out@, open: self.open@, invert_y: INVERT_Y }
    }
}

fn append_bytes(out: &mut Vec<u8>, bytes: &[u8])
    ensures
        final(out)@ == old(out)@ + bytes@,
{
    let mut i: usize = 0;
    while i < bytes.len()
        invariant
            i <= bytes.len(),
            out@ == old(out)@ + bytes@.take(i as int),
        decreases bytes.len() - i,
    {
        out.push(bytes[i]);
        assert(out@ =~= old(out)@ + bytes@.take(i + 1));
        i += 1;
    }
    assert(bytes@.take(i as int) =~= bytes@);
}

impl<const INVERT_Y: bool> SvgWriter<INVERT_Y> {
    /// A writer that has written nothing.
    pub fn new() -> (writer: SvgWriter<INVERT_Y>)
        ensures
            writer.wf(),
            writer.calls() == Seq::<Call>::empty(),
            writer@ == SvgModel::initial(INVERT_Y),
    {
        SvgWriter { out: Vec::new(), open: Vec::new(), calls: Ghost(Seq::empty()) }
    }

    /// Gives up the writer for the markup written.
    pub fn into_bytes(self) -> (bytes: Vec<u8>)
        ensures
            bytes@ == self@.out,
    {
        self.out
    }

    fn put(&mut self, markup: &str)
        ensures
            final(self).out@ == old(self).out@ + encode_utf8(markup@),
            final(self).open == old(self).open,
            final(self).calls == old(self).calls,
            valid_utf8(old(self).out@) ==> valid_utf8(final(self).out@),
    {
        append_bytes(&mut self.out, markup.as_bytes());
        proof {
            encode_utf8_valid_utf8(markup@);
            if valid_utf8(old(self).out@) {
                valid_utf8_concat(old(self).out@, encode_utf8(markup@));
            }
        }
    }

    /// Records a call that the state machine took and that has been carried out.
    fn accept(&mut self, Ghost(before): Ghost<SvgWriter<INVERT_Y>>, Ghost(event): Ghost<Event>) -> (r: Result<
        (),
        GeozeroError,
    >)
        requires
            before.wf(),
            old(self).calls == before.calls,
            before@.step(event) == Some(old(self)@),
            valid_utf8(old(self)@.out),
        ensures
            final(self).wf(),
            recorded(before.calls(), final(self).calls(), event, r),
            r is Ok,
            final(self)@ == old(self)@,
    {
        let r = Ok(());
        proof {
            lemma_replay_push(
                SvgModel::initial(INVERT_Y),
                self.calls@,
                before@,
                event,
                r,
                self@,
            );
        }
        self.calls = Ghost(self.calls@.push(Call { event, outcome: r }));
        r
    }
}

impl<const INVERT_Y: bool> FeatureProcessor for SvgWriter<INVERT_Y> {
    open spec fn wf(&self) -> bool {
        &&& replay(SvgModel::initial(INVERT_Y), self.calls()) == Some(self@)
        &&& valid_utf8(self@.out)
        &&& refusals_only(self.calls())
    }

    closed spec fn calls(&self) -> Seq<Call> {
        self.calls@
    }

    open spec fn requests_properties(&self) -> bool {
        false
    }

    fn wants_properties(&self) -> (b: bool) {
        false
    }

    fn dataset_begin(&mut self, name: Option<&str>) -> (r: Result<(), GeozeroError>)
        ensures
            r is Ok,
            answered(old(self)@, Event::DatasetBegin(name_model(name)), r, final(self)@),
    {
        let ghost before = *self;
        self.put(
            "<?xml version=\"1.0\"?>\n<svg xmlns=\"http://www.w3.org/2000/svg\" version=\"1.2\" baseProfile=\"tiny\" stroke-linecap=\"round\" stroke-linejoin=\"round\">\n<g id=\"",
        );
        match name {
            Some(n) => {
                self.put(n);
            },
            None => {
                assert(self.out@ + encode_utf8(Seq::<char>::empty()) =~= self.out@);
            },
        }
        self.put("\">");
        assert(self.out@ =~= before.out@ + document_open(name_model(name)));
        self.accept(Ghost(before), Ghost(Event::DatasetBegin(name_model(name))))
    }

    fn dataset_end(&mut self) -> (r: Result<(), GeozeroError>)
        ensures
            r is Ok,
            answered(old(self)@, Event::DatasetEnd, r, final(self)@),
    {
        let ghost before = *self;
        self.put("\n</g>\n</svg>");
        self.accept(Ghost(before), Ghost(Event::DatasetEnd))
    }

    fn feature_begin(&mut self, index: u64) -> (r: Result<(), GeozeroError>)
        ensures
            r is Ok,
            answered(old(self)@, Event::FeatureBegin(index), r, final(self)@),
    {
        let ghost before = *self;
        self.put("\n");
        self.accept(Ghost(before), Ghost(Event::FeatureBegin(index)))
    }

    fn feature_end(&mut self, index: u64) -> (r: Result<(), GeozeroError>)
        ensures
            r is Ok,
            answered(old(self)@, Event::FeatureEnd(index), r, final(self)@),
    {
        let ghost before = *self;
        self.accept(Ghost(before), Ghost(Event::FeatureEnd(index)))
    }

    fn properties_begin(&mut self) -> (r: Result<(), GeozeroError>)
        ensures
            r is Ok,
            answered(old(self)@, Event::PropertiesBegin, r, final(self)@),
    {
        let ghost before = *self;
        self.accept(Ghost(before), Ghost(Event::PropertiesBegin))
    }

    fn property(&mut self, name: &str, value: &PropertyValue) -> (r: Result<(), GeozeroError>)
        ensures
            r is Ok,
            answered(old(self)@, Event::Property(name@, value@), r, final(self)@),
    {
        let ghost before = *self;
        self.accept(Ghost(before), Ghost(Event::Property(name@, value@)))
    }

    fn properties_end(&mut self) -> (r: Result<(), GeozeroError>)
        ensures
            r is Ok,
            answered(old(self)@, Event::PropertiesEnd, r, final(self)@),
    {
        let ghost before = *self;
        self.accept(Ghost(before), Ghost(Event::PropertiesEnd))
    }

    fn geometry_begin(&mut self, kind: GeometryKind, dimension: Dimension, srid: Option<i32>) -> (r:
        Result<(), GeozeroError>)
        ensures
            r is Ok,
            answered(old(self)@, Event::GeometryBegin(kind, dimension, srid), r, final(self)@),
    {
        let ghost before = *self;
        match kind {
            GeometryKind::Point => {
                self.put("<path d=\"M ");
            },
            GeometryKind::LineString => {
                self.put("<path d=\"M ");
            },
            GeometryKind::Polygon => {
                self.put("<path d=\"");
            },
            _ => {
                assert(self.out@ + Seq::<u8>::empty() =~= self.out@);
            },
        }
        self.open.push(kind);
        self.accept(Ghost(before), Ghost(Event::GeometryBegin(kind, dimension, srid)))
    }

    fn geometry_end(&mut self) -> (r: Result<(), GeozeroError>)
        ensures
            answered(old(self)@, Event::GeometryEnd, r, final(self)@),
            r matches Err(e) ==> e@ == refusal(),
    {
        let ghost before = *self;
        let ghost event = Event::GeometryEnd;
        match self.open.pop() {
            Some(kind) => {
                assert(self.open@ =~= before.open@.drop_last());
                match kind {
                    GeometryKind::Point => {
                        self.put("Z\"/>");
                    },
                    GeometryKind::LineString => {
                        self.put("\"/>");
                    },
                    GeometryKind::Polygon => {
                        self.put("\"/>");
                    },
                    _ => {
                        assert(self.out@ + Seq::<u8>::empty() =~= self.out@);
                    },
                }
                self.accept(Ghost(before), Ghost(event))
            },
            None => {
                let r = Err(
                    GeozeroError::Sink {
                        message: String::from_str("geometry_end: no node is open"),
                    },
                );
                proof {
                    lemma_replay_push(
                        SvgModel::initial(INVERT_Y),
                        self.calls@,
                        self@,
                        event,
                        r,
                        self@,
                    );
                }
                self.calls = Ghost(self.calls@.push(Call { event, outcome: r }));
                r
            },
        }
    }

    fn coordinate(&mut self, coordinate: Coordinate) -> (r: Result<(), GeozeroError>)
        ensures
            r is Ok,
            answered(old(self)@, Event::Coordinate(coordinate), r, final(self)@),
    {
        let ghost before = *self;
        let y: u64 = if !INVERT_Y {
            coordinate.y
        } else if coordinate.y >= 0x8000_0000_0000_0000 {
            coordinate.y - 0x8000_0000_0000_0000
        } else {
            coordinate.y + 0x8000_0000_0000_0000
        };
        write_number(&mut self.out, coordinate.x);
        self.out.push(32u8);
        write_number(&mut self.out, y);
        self.out.push(32u8);
        proof {
            let text = coordinate_text(coordinate, INVERT_Y);
            assert(self.out@ =~= before.out@ + text);
            lemma_number_text_ascii(coordinate.x);
            lemma_number_text_ascii(y);
            assert(ascii(text));
            lemma_ascii_is_utf8(text);
            valid_utf8_concat(before.out@, text);
        }
        self.accept(Ghost(before), Ghost(Event::Coordinate(coordinate)))
    }

    fn ring_begin(&mut self) -> (r: Result<(), GeozeroError>)
        ensures
            r is Ok,
            answered(old(self)@, Event::RingBegin, r, final(self)@),
    {
        let ghost before = *self;
        self.put("M ");
        self.accept(Ghost(before), Ghost(Event::RingBegin))
    }

    fn ring_end(&mut self) -> (r: Result<(), GeozeroError>)
        ensures
            r is Ok,
            answered(old(self)@, Event::RingEnd, r, final(self)@),
    {
        let ghost before = *self;
        self.put("Z ");
        self.accept(Ghost(before), Ghost(Event::RingEnd))
    }
}

/// `String::from_utf8`: the text that the bytes encode, if and only if they
/// are valid UTF-8.
#[verifier::external_body]
fn from_utf8(bytes: Vec<u8>) -> (text: Option<String>)
    ensures
        match text {
            Some(s) => valid_utf8(bytes@) && s@ == decode_utf8(bytes@),
            None => !valid_utf8(bytes@),
        },
{
    match String::from_utf8(bytes) {
        Ok(s) => Some(s),
        Err(_) => None,
    }
}

/// The text that the given bytes encode; an encoding error if they are not
/// valid UTF-8.
pub fn into_text(bytes: Vec<u8>) -> (r: Result<String, GeozeroError>)
    ensures
        match r {
            Ok(text) => valid_utf8(bytes@) && text@ == decode_utf8(bytes@),
            Err(e) => !valid_utf8(bytes@) && e@ == (ErrorModel::Encoding {
                message: "Invalid UTF-8 encoding"@,
            }),
        },
{
    match from_utf8(bytes) {
        Some(text) => Ok(text),
        None => Err(GeozeroError::Encoding { message: String::from_str("Invalid UTF-8 encoding") }),
    }
}

/// How a conversion to SVG ends, given what its source has to say.
///
/// Where the writer accepts every call of the source and the source reports
/// no fault, the result is the text of the markup that the writer's state
/// machine has written after the calls. Where the source reports a fault,
/// that is the error. Where the writer rejects a call, its refusal is.
pub open spec fn svg_outcome(walk: Walk, r: Result<String, GeozeroError>) -> bool {
    match run(SvgModel::initial(false), walk.events) {
        Some(state) => match walk.fault {
            None => r matches Ok(text) && text@ == decode_utf8(state.out),
            Some(fault) => r matches Err(e) && e@ == fault,
        },
        None => r matches Err(e) && e@ == refusal(),
    }
}

/// Ends a conversion: the text of what the writer wrote, or the error of the walk.
fn finish(writer: SvgWriter<false>, Ghost(walk): Ghost<Walk>, r: Result<(), GeozeroError>) -> (text: Result<
    String,
    GeozeroError,
>)
    requires
        writer.wf(),
        delivered(Seq::empty(), walk, writer.calls(), r),
    ensures
        svg_outcome(walk, text),
{
    proof {
        let initial = SvgModel::initial(false);
        if run(initial, walk.events) is Some {
            lemma_machine_delivered(
                initial,
                Seq::empty(),
                initial,
                walk,
                writer.calls(),
                writer@,
                r,
            );
        } else {
            lemma_machine_rejected(
                initial,
                Seq::empty(),
                initial,
                walk,
                writer.calls(),
                writer@,
                r,
            );
        }
    }
    match r {
        Err(e) => Err(e),
        Ok(_) => into_text(writer.into_bytes()),
    }
}

/// What a document of one geometry has to say: the geometry as the only
/// feature of an unnamed dataset.
pub open spec fn document_walk(geometry: Walk) -> Walk {
    Walk::of(seq![Event::DatasetBegin(None)]).followed_by(
        Walk::of(seq![Event::FeatureBegin(0)]),
    ).followed_by(geometry).followed_by(Walk::of(seq![Event::FeatureEnd(0)])).followed_by(
        Walk::of(seq![Event::DatasetEnd]),
    )
}

/// Convert to SVG.
pub trait ToSvg: GeozeroGeometry {
    /// Convert to SVG geometry.
    fn to_svg(&self) -> (r: Result<String, GeozeroError>)
        ensures
            svg_outcome(self.walk(), r),
    ;

    /// Convert to SVG document.
    fn to_svg_document(&self) -> (r: Result<String, GeozeroError>)
        ensures
            svg_outcome(document_walk(self.walk()), r),
    ;
}

impl<T: GeozeroGeometry> ToSvg for T {
    fn to_svg(&self) -> (r: Result<String, GeozeroError>) {
        let mut svg = SvgWriter::<false>::new();
        let r = self.process_geom(&mut svg);
        finish(svg, Ghost(self.walk()), r)
    }

    fn to_svg_document(&self) -> (r: Result<String, GeozeroError>) {
        let mut svg = SvgWriter::<false>::new();
        let ghost start = svg.calls();
        let ghost w1 = Walk::of(seq![Event::DatasetBegin(None)]);
        let ghost w2 = Walk::of(seq![Event::FeatureBegin(0)]);
        let ghost w3 = self.walk();
        let ghost w4 = Walk::of(seq![Event::FeatureEnd(0)]);
        let ghost w5 = Walk::of(seq![Event::DatasetEnd]);
        let ghost total = document_walk(w3);
        let r = svg.dataset_begin(None);
        proof {
            lemma_delivered_one(start, Event::DatasetBegin(None), r);
        }
        let ghost c1 = svg.calls();
        let r = svg.feature_begin(0);
        proof {
            lemma_delivered_one(c1, Event::FeatureBegin(0), r);
            lemma_delivered_both(start, w1, c1, w2, svg.calls(), r);
        }
        let ghost c2 = svg.calls();
        let r = self.process_geom(&mut svg);
        proof {
            lemma_delivered_both(start, w1.followed_by(w2), c2, w3, svg.calls(), r);
        }
        if r.is_err() {
            proof {
                let e = r->Err_0;
                let done = w1.followed_by(w2).followed_by(w3);
                lemma_delivered_abort(start, done, svg.calls(), e, w4);
                lemma_delivered_abort(start, done.followed_by(w4), svg.calls(), e, w5);
            }
            return finish(svg, Ghost(total), r);
        }
        let ghost c3 = svg.calls();
        let r = svg.feature_end(0);
        proof {
            lemma_delivered_one(c3, Event::FeatureEnd(0), r);
            lemma_delivered_both(
                start,
                w1.followed_by(w2).followed_by(w3),
                c3,
                w4,
                svg.calls(),
                r,
            );
        }
        let ghost c4 = svg.calls();
        let r = svg.dataset_end();
        proof {
            lemma_delivered_one(c4, Event::DatasetEnd, r);
            lemma_delivered_both(
                start,
                w1.followed_by(w2).followed_by(w3).followed_by(w4),
                c4,
                w5,
                svg.calls(),
                r,
            );
        }
        finish(svg, Ghost(total), r)
    }
}

/// Consume features as SVG.
pub trait ProcessToSvg: GeozeroDatasource {
    /// Consume features as SVG String.
    fn to_svg(&mut self) -> (r: Result<String, GeozeroError>)
        ensures
            svg_outcome(old(self).dataset_walk(false), r),
    ;
}

impl<T: GeozeroDatasource> ProcessToSvg for T {
    fn to_svg(&mut self) -> (r: Result<String, GeozeroError>) {
        let mut svg = SvgWriter::<false>::new();
        let r = self.process(&mut svg);
        finish(svg, Ghost(old(self).dataset_walk(false)), r)
    }
}

/// Read features as SVG.
pub trait ReadAsSvg: GeozeroDatasourceReader {
    /// Consume features as SVG String.
    fn read_as_svg(bytes: &[u8]) -> (r: Result<String, GeozeroError>)
        ensures
            svg_outcome(Self::read_walk(bytes@, false), r),
    ;
}

impl<T: GeozeroDatasourceReader> ReadAsSvg for T {
    fn read_as_svg(bytes: &[u8]) -> (r: Result<String, GeozeroError>) {
        let mut svg = SvgWriter::<false>::new();
        let r = T::read(bytes, &mut svg);
        finish(svg, Ghost(T::read_walk(bytes@, false)), r)
    }
}

} // verus!
