//! A sink that rebuilds the geometry it is told about.
use vstd::prelude::*;
use crate::builder_model::{lemma_run_shape, refusal_text, BuilderModel, FrameModel};
use crate::machine::{
    accepted_count, answered, lemma_machine_delivered, lemma_machine_rejected, lemma_replay_push,
    replay, run,
};
use crate::error::{ErrorModel, GeozeroError};
use crate::event::{
    accepted, delivered, name_model, Call, Coordinate, Dimension, Event, GeometryKind,
    PropertyValue, Walk,
};
use crate::geometry::{
    lemma_member_shapes, lemma_view_well_kinded, line_shapes, member_shapes, point_shapes,
    polygon_shapes, ring_models, Geometry, Shape,
};
use crate::processor::{recorded, FeatureProcessor};
use crate::walker::{geometry_walk, GeozeroGeometry};

verus! {

/// An open node with the storage of the geometry that it will close as.
enum Frame {
    Point(Option<Coordinate>),
    LineString(Vec<Coordinate>),
    Polygon(Vec<Vec<Coordinate>>, Option<Vec<Coordinate>>),
    MultiPoint(Vec<Coordinate>),
    MultiLineString(Vec<Vec<Coordinate>>),
    MultiPolygon(Vec<Vec<Vec<Coordinate>>>),
    Collection(Vec<Geometry>),
}

impl Frame {
    spec fn model(self) -> FrameModel {
        match self {
            Frame::Point(c) => FrameModel::Point(c),
            Frame::LineString(coordinates) => FrameModel::LineString(coordinates@),
            Frame::Polygon(rings, open) => FrameModel::Polygon(
                ring_models(rings@),
                match open {
                    Some(ring) => Some(ring@),
                    None => None,
                },
            ),
            Frame::MultiPoint(points) => FrameModel::Multi(
                GeometryKind::MultiPoint,
                point_shapes(points@),
            ),
            Frame::MultiLineString(lines) => FrameModel::Multi(
                GeometryKind::MultiLineString,
                line_shapes(lines@),
            ),
            Frame::MultiPolygon(polygons) => FrameModel::Multi(
                GeometryKind::MultiPolygon,
                polygon_shapes(polygons@),
            ),
            Frame::Collection(members) => FrameModel::Multi(
                GeometryKind::GeometryCollection,
                member_shapes(members@, members@.len()),
            ),
        }
    }

    fn opened(kind: GeometryKind) -> (frame: Frame)
        ensures
            frame.model() == FrameModel::opened(kind),
    {
        match kind {
            GeometryKind::Point => Frame::Point(None),
            GeometryKind::LineString => Frame::LineString(Vec::new()),
            GeometryKind::Polygon => {
                let rings: Vec<Vec<Coordinate>> = Vec::new();
                assert(ring_models(rings@) =~= Seq::empty());
                Frame::Polygon(rings, None)
            },
            GeometryKind::MultiPoint => {
                let points: Vec<Coordinate> = Vec::new();
                assert(point_shapes(points@) =~= Seq::empty());
                Frame::MultiPoint(points)
            },
            GeometryKind::MultiLineString => {
                let lines: Vec<Vec<Coordinate>> = Vec::new();
                assert(line_shapes(lines@) =~= Seq::empty());
                Frame::MultiLineString(lines)
            },
            GeometryKind::MultiPolygon => {
                let polygons: Vec<Vec<Vec<Coordinate>>> = Vec::new();
                assert(polygon_shapes(polygons@) =~= Seq::empty());
                Frame::MultiPolygon(polygons)
            },
            GeometryKind::GeometryCollection => Frame::Collection(Vec::new()),
        }
    }

    fn kind(&self) -> (kind: GeometryKind)
        ensures
            kind == self.model().kind(),
    {
        match self {
            Frame::Point(_) => GeometryKind::Point,
            Frame::LineString(_) => GeometryKind::LineString,
            Frame::Polygon(_, _) => GeometryKind::Polygon,
            Frame::MultiPoint(_) => GeometryKind::MultiPoint,
            Frame::MultiLineString(_) => GeometryKind::MultiLineString,
            Frame::MultiPolygon(_) => GeometryKind::MultiPolygon,
            Frame::Collection(_) => GeometryKind::GeometryCollection,
        }
    }

    fn takes_coordinate(&self) -> (b: bool)
        ensures
            b == self.model().takes_coordinate(),
    {
        match self {
            Frame::Point(None) => true,
            Frame::LineString(_) => true,
            Frame::Polygon(_, Some(_)) => true,
            _ => false,
        }
    }

    fn with_coordinate(self, c: Coordinate) -> (frame: Frame)
        ensures
            frame.model() == self.model().with_coordinate(c),
    {
        match self {
            Frame::Point(_) => Frame::Point(Some(c)),
            Frame::LineString(mut coordinates) => {
                coordinates.push(c);
                Frame::LineString(coordinates)
            },
            Frame::Polygon(rings, Some(mut ring)) => {
                ring.push(c);
                Frame::Polygon(rings, Some(ring))
            },
            other => other,
        }
    }

    fn ring_opened(self) -> (r: Result<Frame, Frame>)
        ensures
            match r {
                Ok(frame) => self.model().ring_opened() == Some(frame.model()),
                Err(frame) => self.model().ring_opened() is None && frame == self,
            },
    {
        match self {
            Frame::Polygon(rings, None) => Ok(Frame::Polygon(rings, Some(Vec::new()))),
            other => Err(other),
        }
    }

    fn ring_closed(self) -> (r: Result<Frame, Frame>)
        ensures
            match r {
                Ok(frame) => self.model().ring_closed() == Some(frame.model()),
                Err(frame) => self.model().ring_closed() is None && frame == self,
            },
    {
        match self {
            Frame::Polygon(mut rings, Some(ring)) => {
                let ghost before = rings@;
                let ghost closed = ring@;
                rings.push(ring);
                assert(ring_models(rings@) =~= ring_models(before).push(closed));
                Ok(Frame::Polygon(rings, None))
            },
            other => Err(other),
        }
    }

    fn complete(&self) -> (b: bool)
        ensures
            b == self.model().finished() is Some,
    {
        match self {
            Frame::Point(None) => false,
            Frame::Polygon(_, Some(_)) => false,
            _ => true,
        }
    }

    fn finish(self) -> (g: Geometry)
        requires
            self.model().finished() is Some,
        ensures
            self.model().finished() == Some(g@),
            g@.kind() == self.model().kind(),
    {
        match self {
            Frame::Point(Some(c)) => Geometry::Point(c),
            // A point without its coordinate is not complete, so this arm is never taken.
            Frame::Point(None) => Geometry::MultiPoint(Vec::new()),
            Frame::LineString(coordinates) => Geometry::LineString(coordinates),
            Frame::Polygon(rings, _) => Geometry::Polygon(rings),
            Frame::MultiPoint(points) => Geometry::MultiPoint(points),
            Frame::MultiLineString(lines) => Geometry::MultiLineString(lines),
            Frame::MultiPolygon(polygons) => Geometry::MultiPolygon(polygons),
            Frame::Collection(members) => Geometry::GeometryCollection(members),
        }
    }

    fn admits(&self, kind: GeometryKind) -> (b: bool)
        ensures
            b == self.model().admits(kind),
    {
        match self {
            Frame::MultiPoint(_) => GeometryKind::MultiPoint.accepts_member(kind),
            Frame::MultiLineString(_) => GeometryKind::MultiLineString.accepts_member(kind),
            Frame::MultiPolygon(_) => GeometryKind::MultiPolygon.accepts_member(kind),
            Frame::Collection(_) => true,
            _ => false,
        }
    }

    fn with_member(self, g: Geometry) -> (frame: Frame)
        requires
            self.model().admits(g@.kind()),
        ensures
            frame.model() == self.model().with_member(g@),
    {
        match self {
            Frame::MultiPoint(mut points) => {
                let ghost before = points@;
                match g {
                    Geometry::Point(c) => {
                        points.push(c);
                        assert(point_shapes(points@) =~= point_shapes(before).push(g@));
                    },
                    _ => {
                        assert(false);
                    },
                }
                Frame::MultiPoint(points)
            },
            Frame::MultiLineString(mut lines) => {
                let ghost before = lines@;
                let ghost shape = g@;
                match g {
                    Geometry::LineString(line) => {
                        lines.push(line);
                        assert(line_shapes(lines@) =~= line_shapes(before).push(shape));
                    },
                    _ => {
                        assert(false);
                    },
                }
                Frame::MultiLineString(lines)
            },
            Frame::MultiPolygon(mut polygons) => {
                let ghost before = polygons@;
                let ghost shape = g@;
                match g {
                    Geometry::Polygon(rings) => {
                        polygons.push(rings);
                        assert(polygon_shapes(polygons@) =~= polygon_shapes(before).push(shape));
                    },
                    _ => {
                        assert(false);
                    },
                }
                Frame::MultiPolygon(polygons)
            },
            Frame::Collection(mut members) => {
                let ghost before = members@;
                let ghost shape = g@;
                members.push(g);
                proof {
                    lemma_member_shapes(before, before.len());
                    lemma_member_shapes(members@, members@.len());
                    assert(member_shapes(members@, members@.len()) =~= member_shapes(
                        before,
                        before.len(),
                    ).push(shape));
                }
                Frame::Collection(members)
            },
            other => other,
        }
    }
}

/// Whether every rejected call among `calls` was rejected with the message
/// that a builder has for it.
pub open spec fn refusals_told(calls: Seq<Call>) -> bool {
    forall|i: int|
        0 <= i < calls.len() && (#[trigger] calls[i]).outcome is Err
            ==> calls[i].outcome->Err_0@ == (ErrorModel::Sink {
            message: refusal_text(calls[i].event),
        })
}

spec fn frame_models(stack: Seq<Frame>) -> Seq<FrameModel> {
    Seq::new(stack.len(), |i: int| stack[i].model())
}

/// A sink that rebuilds, as an in-memory geometry, the geometry whose calls
/// it receives. Dataset, feature and property calls are accepted and ignored.
pub struct GeometryBuilder {
    stack: Vec<Frame>,
    result: Option<Geometry>,
    dimension: Dimension,
    srid: Option<i32>,
    calls: Ghost<Seq<Call>>,
}

impl View for GeometryBuilder {
    type V = BuilderModel;

    closed spec fn view(&self) -> BuilderModel {
        BuilderModel {
            stack: frame_models(self.stack@),
            result: match self.result {
                Some(g) => Some(g@),
                None => None,
            },
            dimension: self.dimension,
            srid: self.srid,
        }
    }
}

impl GeometryBuilder {
    /// A builder that has not been called.
    pub fn new() -> (builder: GeometryBuilder)
        ensures
            builder.wf(),
            builder.calls() == Seq::<Call>::empty(),
            builder@ == BuilderModel::initial(),
    {
        let builder = GeometryBuilder {
            stack: Vec::new(),
            result: None,
            dimension: Dimension::Xy,
            srid: None,
            calls: Ghost(Seq::empty()),
        };
        assert(frame_models(builder.stack@) =~= Seq::empty());
        builder
    }

    /// The last geometry whose outermost node was closed.
    pub fn geometry(&self) -> (g: Option<&Geometry>)
        ensures
            match g {
                Some(g) => self@.result == Some(g@),
                None => self@.result is None,
            },
    {
        self.result.as_ref()
    }

    /// Gives up the builder for the last geometry whose outermost node was closed.
    pub fn into_geometry(self) -> (g: Option<Geometry>)
        ensures
            match g {
                Some(g) => self@.result == Some(g@),
                None => self@.result is None,
            },
    {
        self.result
    }

    /// The dimensionality declared by the outermost node last opened.
    pub fn dimension(&self) -> (d: Dimension)
        ensures
            d == self@.dimension,
    {
        self.dimension
    }

    /// The spatial reference declared by the outermost node last opened.
    pub fn srid(&self) -> (srid: Option<i32>)
        ensures
            srid == self@.srid,
    {
        self.srid
    }

    fn take_top(&mut self) -> (frame: Frame)
        requires
            old(self).stack@.len() > 0,
        ensures
            frame == old(self).stack@.last(),
            final(self).stack@ == old(self).stack@.drop_last(),
            final(self).result == old(self).result,
            final(self).dimension == old(self).dimension,
            final(self).srid == old(self).srid,
            final(self).calls == old(self).calls,
    {
        let top = self.stack.pop();
        assert(self.stack@ =~= old(self).stack@.drop_last());
        top.unwrap()
    }

    /// Answers a call that changes nothing.
    fn pass(&mut self, Ghost(event): Ghost<Event>) -> (r: Result<(), GeozeroError>)
        requires
            old(self).wf(),
            old(self)@.step(event) == Some(old(self)@),
        ensures
            final(self).wf(),
            recorded(old(self).calls(), final(self).calls(), event, r),
            r is Ok,
            final(self)@ == old(self)@,
    {
        let r = Ok(());
        proof {
            lemma_replay_push(BuilderModel::initial(), self.calls@, self@, event, r, self@);
        }
        self.calls = Ghost(self.calls@.push(Call { event, outcome: r }));
        r
    }

    /// Answers a call that the state machine does not take.
    fn reject(&mut self, Ghost(event): Ghost<Event>, message: &str) -> (r: Result<(), GeozeroError>)
        requires
            old(self).wf(),
            old(self)@.step(event) is None,
            message@ == refusal_text(event),
        ensures
            final(self).wf(),
            recorded(old(self).calls(), final(self).calls(), event, r),
            r matches Err(e) && e@ == (ErrorModel::Sink { message: refusal_text(event) }),
            final(self)@ == old(self)@,
    {
        let r = Err(GeozeroError::Sink { message: String::from_str(message) });
        proof {
            lemma_replay_push(BuilderModel::initial(), self.calls@, self@, event, r, self@);
        }
        self.calls = Ghost(self.calls@.push(Call { event, outcome: r }));
        r
    }

    /// Records a call that the state machine took and that has been carried out.
    fn accept(&mut self, Ghost(before): Ghost<GeometryBuilder>, Ghost(event): Ghost<Event>) -> (r:
        Result<(), GeozeroError>)
        requires
            before.wf(),
            old(self).calls == before.calls,
            before@.step(event) == Some(old(self)@),
        ensures
            final(self).wf(),
            recorded(before.calls(), final(self).calls(), event, r),
            r is Ok,
            final(self)@ == old(self)@,
    {
        let r = Ok(());
        proof {
            lemma_replay_push(BuilderModel::initial(), self.calls@, before@, event, r, self@);
        }
        self.calls = Ghost(self.calls@.push(Call { event, outcome: r }));
        r
    }
}

impl FeatureProcessor for GeometryBuilder {
    open spec fn wf(&self) -> bool {
        &&& replay(BuilderModel::initial(), self.calls()) == Some(self@)
        &&& refusals_told(self.calls())
    }

    closed spec fn calls(&self) -> Seq<Call> {
        self.calls@
    }

    open spec fn requests_properties(&self) -> bool {
        false
    }

    fn wants_properties(&self) -> (b: bool) {
        false
    }

    fn dataset_begin(&mut self, name: Option<&str>) -> (r: Result<(), GeozeroError>)
        ensures
            r is Ok,
            final(self)@ == old(self)@,
    {
        self.pass(Ghost(Event::DatasetBegin(name_model(name))))
    }

    fn dataset_end(&mut self) -> (r: Result<(), GeozeroError>)
        ensures
            r is Ok,
            final(self)@ == old(self)@,
    {
        self.pass(Ghost(Event::DatasetEnd))
    }

    fn feature_begin(&mut self, index: u64) -> (r: Result<(), GeozeroError>)
        ensures
            r is Ok,
            final(self)@ == old(self)@,
    {
        self.pass(Ghost(Event::FeatureBegin(index)))
    }

    fn feature_end(&mut self, index: u64) -> (r: Result<(), GeozeroError>)
        ensures
            r is Ok,
            final(self)@ == old(self)@,
    {
        self.pass(Ghost(Event::FeatureEnd(index)))
    }

    fn properties_begin(&mut self) -> (r: Result<(), GeozeroError>)
        ensures
            r is Ok,
            final(self)@ == old(self)@,
    {
        self.pass(Ghost(Event::PropertiesBegin))
    }

    fn property(&mut self, name: &str, value: &PropertyValue) -> (r: Result<(), GeozeroError>)
        ensures
            r is Ok,
            final(self)@ == old(self)@,
    {
        self.pass(Ghost(Event::Property(name@, value@)))
    }

    fn properties_end(&mut self) -> (r: Result<(), GeozeroError>)
        ensures
            r is Ok,
            final(self)@ == old(self)@,
    {
        self.pass(Ghost(Event::PropertiesEnd))
    }

    fn geometry_begin(&mut self, kind: GeometryKind, dimension: Dimension, srid: Option<i32>) -> (r:
        Result<(), GeozeroError>)
        ensures
            answered(old(self)@, Event::GeometryBegin(kind, dimension, srid), r, final(self)@),
            r matches Err(e) ==> e@ == (ErrorModel::Sink {
                message: refusal_text(Event::GeometryBegin(kind, dimension, srid)),
            }),
    {
        let ghost before = *self;
        let ghost event = Event::GeometryBegin(kind, dimension, srid);
        let n = self.stack.len();
        if n == 0 {
            self.result = None;
            self.dimension = dimension;
            self.srid = srid;
            self.stack.push(Frame::opened(kind));
            assert(frame_models(self.stack@) =~= seq![FrameModel::opened(kind)]);
            self.accept(Ghost(before), Ghost(event))
        } else if self.stack[n - 1].admits(kind) && self.dimension == dimension {
            self.stack.push(Frame::opened(kind));
            assert(frame_models(self.stack@) =~= frame_models(before.stack@).push(
                FrameModel::opened(kind),
            ));
            self.accept(Ghost(before), Ghost(event))
        } else {
            self.reject(Ghost(event), "geometry_begin: the open node takes no such member")
        }
    }

    fn geometry_end(&mut self) -> (r: Result<(), GeozeroError>)
        ensures
            answered(old(self)@, Event::GeometryEnd, r, final(self)@),
            r matches Err(e) ==> e@ == (ErrorModel::Sink {
                message: refusal_text(Event::GeometryEnd),
            }),
    {
        let ghost before = *self;
        let ghost event = Event::GeometryEnd;
        let n = self.stack.len();
        if n == 0 || !self.stack[n - 1].complete() {
            return self.reject(Ghost(event), "geometry_end: no node is ready to be closed");
        }
        if n >= 2 && !self.stack[n - 2].admits(self.stack[n - 1].kind()) {
            return self.reject(Ghost(event), "geometry_end: no node is ready to be closed");
        }
        let g = self.take_top().finish();
        if n == 1 {
            self.result = Some(g);
            assert(frame_models(self.stack@) =~= before@.stack.drop_last());
        } else {
            let parent = self.take_top();
            self.stack.push(parent.with_member(g));
            assert(frame_models(self.stack@) =~= before@.stack.drop_last().drop_last().push(
                before@.stack.drop_last().last().with_member(g@),
            ));
        }
        self.accept(Ghost(before), Ghost(event))
    }

    fn coordinate(&mut self, coordinate: Coordinate) -> (r: Result<(), GeozeroError>)
        ensures
            answered(old(self)@, Event::Coordinate(coordinate), r, final(self)@),
            r matches Err(e) ==> e@ == (ErrorModel::Sink {
                message: refusal_text(Event::Coordinate(coordinate)),
            }),
    {
        let ghost before = *self;
        let ghost event = Event::Coordinate(coordinate);
        let n = self.stack.len();
        if n > 0 && self.stack[n - 1].takes_coordinate() && coordinate.dims() == self.dimension {
            let frame = self.take_top();
            self.stack.push(frame.with_coordinate(coordinate));
            assert(frame_models(self.stack@) =~= before@.stack.drop_last().push(
                before@.stack.last().with_coordinate(coordinate),
            ));
            self.accept(Ghost(before), Ghost(event))
        } else {
            self.reject(Ghost(event), "coordinate: no open node takes this coordinate")
        }
    }

    fn ring_begin(&mut self) -> (r: Result<(), GeozeroError>)
        ensures
            answered(old(self)@, Event::RingBegin, r, final(self)@),
            r matches Err(e) ==> e@ == (ErrorModel::Sink {
                message: refusal_text(Event::RingBegin),
            }),
    {
        let ghost before = *self;
        let ghost event = Event::RingBegin;
        if self.stack.len() == 0 {
            return self.reject(Ghost(event), "ring_begin: no polygon is open");
        }
        match self.take_top().ring_opened() {
            Ok(frame) => {
                self.stack.push(frame);
                assert(frame_models(self.stack@) =~= before@.stack.drop_last().push(frame.model()));
                self.accept(Ghost(before), Ghost(event))
            },
            Err(frame) => {
                self.stack.push(frame);
                assert(self.stack@ =~= before.stack@);
                self.reject(Ghost(event), "ring_begin: no polygon is open")
            },
        }
    }

    fn ring_end(&mut self) -> (r: Result<(), GeozeroError>)
        ensures
            answered(old(self)@, Event::RingEnd, r, final(self)@),
            r matches Err(e) ==> e@ == (ErrorModel::Sink {
                message: refusal_text(Event::RingEnd),
            }),
    {
        let ghost before = *self;
        let ghost event = Event::RingEnd;
        if self.stack.len() == 0 {
            return self.reject(Ghost(event), "ring_end: no ring is open");
        }
        match self.take_top().ring_closed() {
            Ok(frame) => {
                self.stack.push(frame);
                assert(frame_models(self.stack@) =~= before@.stack.drop_last().push(frame.model()));
                self.accept(Ghost(before), Ghost(event))
            },
            Err(frame) => {
                self.stack.push(frame);
                assert(self.stack@ =~= before.stack@);
                self.reject(Ghost(event), "ring_end: no ring is open")
            },
        }
    }
}

/// Walking a geometry into a builder that has no node open rebuilds the
/// geometry: the walk succeeds, and the builder's result is a geometry equal
/// in structure to the one walked, under the dimensionality and the spatial
/// reference that the walk declared.
pub proof fn lemma_round_trip(
    before: GeometryBuilder,
    after: GeometryBuilder,
    g: Geometry,
    dimension: Dimension,
    srid: Option<i32>,
    r: Result<(), GeozeroError>,
)
    requires
        before.wf(),
        before@.stack.len() == 0,
        after.wf(),
        g@.uniform(dimension),
        delivered(before.calls(), geometry_walk(g@, dimension, srid), after.calls(), r),
    ensures
        r is Ok,
        after@.result == Some(g@),
        after@.stack.len() == 0,
        after@.dimension == dimension,
        after@.srid == srid,
{
    lemma_view_well_kinded(g);
    lemma_run_shape(before@, g@, dimension, srid);
    lemma_machine_delivered(
        BuilderModel::initial(),
        before.calls(),
        before@,
        geometry_walk(g@, dimension, srid),
        after.calls(),
        after@,
        r,
    );
}

/// The geometry that a fresh builder holds after a walk: there is one if the
/// source reports no fault, the builder accepts every call, and the calls
/// close an outermost node.
pub open spec fn built(walk: Walk) -> Option<Shape> {
    match run(BuilderModel::initial(), walk.events) {
        Some(state) => if walk.fault is None {
            state.result
        } else {
            None
        },
        None => None,
    }
}

/// How building a geometry ends, given what its source has to say.
///
/// Where a fresh builder accepts every call of the source and the source
/// reports no fault, the result is the geometry that the builder holds after
/// the calls; there must be one. Where the source reports a fault, that is
/// the error. Where the builder rejects a call, its refusal of that call is.
pub open spec fn build_outcome(walk: Walk, r: Result<Geometry, GeozeroError>) -> bool {
    match run(BuilderModel::initial(), walk.events) {
        Some(state) => match walk.fault {
            None => match state.result {
                Some(shape) => r matches Ok(g) && g@ == shape,
                None => r matches Err(e) && e@ == (ErrorModel::Sink {
                    message: "no geometry was completed"@,
                }),
            },
            Some(fault) => r matches Err(e) && e@ == fault,
        },
        None => r matches Err(e) && e@ == (ErrorModel::Sink {
            message: refusal_text(
                walk.events[accepted_count(BuilderModel::initial(), walk.events)],
            ),
        }),
    }
}

/// Builds the in-memory geometry that `source` describes.
pub fn build_geometry<T: GeozeroGeometry>(source: &T) -> (r: Result<Geometry, GeozeroError>)
    ensures
        build_outcome(source.walk(), r),
        r matches Ok(g) ==> built(source.walk()) == Some(g@),
        r is Err ==> built(source.walk()) is None,
{
    let mut builder = GeometryBuilder::new();
    let ghost fresh = builder;
    let r = source.process_geom(&mut builder);
    proof {
        let initial = BuilderModel::initial();
        assert(replay(initial, fresh.calls()) == Some(initial));
        if run(initial, source.walk().events) is Some {
            lemma_machine_delivered(
                initial,
                fresh.calls(),
                initial,
                source.walk(),
                builder.calls(),
                builder@,
                r,
            );
        } else {
            lemma_machine_rejected(
                initial,
                fresh.calls(),
                initial,
                source.walk(),
                builder.calls(),
                builder@,
                r,
            );
        }
    }
    match r {
        Err(e) => Err(e),
        Ok(_) => match builder.into_geometry() {
            Some(g) => Ok(g),
            None => Err(
                GeozeroError::Sink { message: String::from_str("no geometry was completed") },
            ),
        },
    }
}

/// Rebuilding an in-memory geometry from its own walk yields a geometry
/// equal in structure to it, provided that all its coordinates have the
/// dimensionality under which it is walked.
pub proof fn lemma_rebuild(g: Geometry, dimension: Dimension, srid: Option<i32>)
    requires
        g@.uniform(dimension),
    ensures
        built(geometry_walk(g@, dimension, srid)) == Some(g@),
{
    lemma_view_well_kinded(g);
    lemma_run_shape(BuilderModel::initial(), g@, dimension, srid);
}

} // verus!

