//! The ordering rules of the event protocol, and that the sources of this
//! library keep them.
use vstd::prelude::*;
use crate::dataset::{feature_walk, features_walk, properties_walk, property_events, Dataset, Feature};
use crate::event::{Coordinate, Dimension, Event, GeometryKind, Walk};
use crate::geometry::{
    coordinate_events, lemma_view_well_kinded, members_events, ring_events, rings_events, Shape,
};
use crate::geopackage::{blob_feature_walk, blobs_walk};
use crate::machine::{lemma_run_concat, lemma_run_one, lemma_run_push, run, SinkMachine};
use crate::walker::geometry_walk;
use crate::wkb::blob_end;
use crate::wkb_model::{blob_walk, lemma_read_blob, read_blob};

verus! {

/// What a `_begin` call opens and the matching `_end` call closes.
pub enum Bracket {
    Dataset,
    Feature,
    Properties,
    Geometry(GeometryKind),
    Ring,
}

/// The brackets that are open, outermost first.
pub struct ProtocolModel {
    pub open: Seq<Bracket>,
}

impl ProtocolModel {
    /// No bracket is open.
    pub open spec fn initial() -> ProtocolModel {
        ProtocolModel { open: Seq::empty() }
    }

    /// This state with one more bracket open.
    pub open spec fn opened(self, bracket: Bracket) -> ProtocolModel {
        ProtocolModel { open: self.open.push(bracket) }
    }

    /// This state with the innermost bracket closed.
    pub open spec fn closed(self) -> ProtocolModel {
        ProtocolModel { open: self.open.drop_last() }
    }

    /// Whether a geometry node of the given kind may be opened: outside
    /// every bracket, directly inside a dataset or a feature, or as a member
    /// that the innermost open composite admits.
    pub open spec fn takes_geometry(self, kind: GeometryKind) -> bool {
        self.open.len() == 0 || match self.open.last() {
            Bracket::Dataset => true,
            Bracket::Feature => true,
            Bracket::Geometry(parent) => parent.admits(kind),
            _ => false,
        }
    }

    /// Whether a coordinate may be reported: directly inside a point, a
    /// line or a ring.
    pub open spec fn takes_coordinate(self) -> bool {
        self.open.len() > 0 && match self.open.last() {
            Bracket::Geometry(GeometryKind::Point) => true,
            Bracket::Geometry(GeometryKind::LineString) => true,
            Bracket::Ring => true,
            _ => false,
        }
    }

    /// Whether the innermost open bracket is the given one.
    pub open spec fn within(self, bracket: Bracket) -> bool {
        self.open.len() > 0 && self.open.last() == bracket
    }

    /// The state after one call, or `None` where the call breaks the rules:
    /// every closing call closes the innermost bracket, which must be of its
    /// kind; a dataset opens outside every bracket; a feature opens outside
    /// every bracket or directly inside a dataset; properties open directly
    /// inside a feature and properties are reported directly inside them; a
    /// ring opens directly inside a polygon.
    pub open spec fn step(self, event: Event) -> Option<ProtocolModel> {
        match event {
            Event::DatasetBegin(_) => if self.open.len() == 0 {
                Some(self.opened(Bracket::Dataset))
            } else {
                None
            },
            Event::DatasetEnd => if self.within(Bracket::Dataset) {
                Some(self.closed())
            } else {
                None
            },
            Event::FeatureBegin(_) => if self.open.len() == 0 || self.within(Bracket::Dataset) {
                Some(self.opened(Bracket::Feature))
            } else {
                None
            },
            Event::FeatureEnd(_) => if self.within(Bracket::Feature) {
                Some(self.closed())
            } else {
                None
            },
            Event::PropertiesBegin => if self.within(Bracket::Feature) {
                Some(self.opened(Bracket::Properties))
            } else {
                None
            },
            Event::Property(_, _) => if self.within(Bracket::Properties) {
                Some(self)
            } else {
                None
            },
            Event::PropertiesEnd => if self.within(Bracket::Properties) {
                Some(self.closed())
            } else {
                None
            },
            Event::GeometryBegin(kind, _, _) => if self.takes_geometry(kind) {
                Some(self.opened(Bracket::Geometry(kind)))
            } else {
                None
            },
            Event::GeometryEnd => if self.open.len() > 0 && self.open.last() is Geometry {
                Some(self.closed())
            } else {
                None
            },
            Event::Coordinate(_) => if self.takes_coordinate() {
                Some(self)
            } else {
                None
            },
            Event::RingBegin => if self.within(Bracket::Geometry(GeometryKind::Polygon)) {
                Some(self.opened(Bracket::Ring))
            } else {
                None
            },
            Event::RingEnd => if self.within(Bracket::Ring) {
                Some(self.closed())
            } else {
                None
            },
        }
    }
}

impl SinkMachine for ProtocolModel {
    open spec fn next(self, event: Event) -> Option<ProtocolModel> {
        self.step(event)
    }
}

/// Whether the given calls keep the ordering rules and close every bracket
/// that they open.
pub open spec fn well_formed(events: Seq<Event>) -> bool {
    run(ProtocolModel::initial(), events) == Some(ProtocolModel::initial())
}

/// Coordinates may follow one another wherever one may be reported.
pub proof fn lemma_protocol_coordinates(state: ProtocolModel, coordinates: Seq<Coordinate>)
    requires
        state.takes_coordinate(),
    ensures
        run(state, coordinate_events(coordinates)) == Some(state),
    decreases coordinates.len(),
{
    if coordinates.len() == 0 {
        assert(coordinate_events(coordinates) =~= Seq::<Event>::empty());
    } else {
        let front = coordinates.drop_last();
        lemma_protocol_coordinates(state, front);
        assert(coordinate_events(coordinates) =~= coordinate_events(front).push(
            Event::Coordinate(coordinates.last()),
        ));
        lemma_run_push(state, coordinate_events(front), Event::Coordinate(coordinates.last()));
    }
}

/// Rings may follow one another directly inside a polygon.
pub proof fn lemma_protocol_rings(state: ProtocolModel, rings: Seq<Seq<Coordinate>>, n: nat)
    requires
        state.within(Bracket::Geometry(GeometryKind::Polygon)),
        n <= rings.len(),
    ensures
        run(state, rings_events(rings, n)) == Some(state),
    decreases n,
{
    if n > 0 {
        let front = rings_events(rings, (n - 1) as nat);
        let ring = rings[n - 1];
        let inside = state.opened(Bracket::Ring);
        lemma_protocol_rings(state, rings, (n - 1) as nat);
        lemma_run_push(state, front, Event::RingBegin);
        lemma_protocol_coordinates(inside, ring);
        lemma_run_concat(state, front.push(Event::RingBegin), coordinate_events(ring));
        let filled = front.push(Event::RingBegin) + coordinate_events(ring);
        lemma_run_push(state, filled, Event::RingEnd);
        assert(inside.closed().open =~= state.open);
        assert(filled.push(Event::RingEnd) =~= front + ring_events(ring));
    }
}

/// The calls of a geometry keep the ordering rules wherever its node may be
/// opened, and close every bracket that they open.
pub proof fn lemma_protocol_shape(
    state: ProtocolModel,
    shape: Shape,
    dimension: Dimension,
    srid: Option<i32>,
)
    requires
        state.takes_geometry(shape.kind()),
        shape.well_kinded(),
    ensures
        run(state, shape.events(dimension, srid)) == Some(state),
    decreases shape, 1nat,
{
    let begin = Event::GeometryBegin(shape.kind(), dimension, srid);
    let body = shape.body(dimension);
    let inside = state.opened(Bracket::Geometry(shape.kind()));
    lemma_run_one(state, begin);
    assert(run(inside, body) == Some(inside)) by {
        if shape is Point {
            lemma_run_one(inside, Event::Coordinate(shape->Point_0));
        } else if shape is LineString {
            lemma_protocol_coordinates(inside, shape->LineString_0);
        } else if shape is Polygon {
            lemma_protocol_rings(inside, shape->Polygon_0, shape->Polygon_0.len());
        } else {
            lemma_protocol_members(inside, shape->Multi_1, shape->Multi_1.len(), dimension);
        }
    }
    lemma_run_concat(state, seq![begin], body);
    lemma_run_push(state, seq![begin] + body, Event::GeometryEnd);
    assert(inside.closed().open =~= state.open);
    assert((seq![begin] + body).push(Event::GeometryEnd) =~= shape.events(dimension, srid));
}

/// Members may follow one another directly inside a composite that admits them.
pub proof fn lemma_protocol_members(
    state: ProtocolModel,
    members: Seq<Shape>,
    n: nat,
    dimension: Dimension,
)
    requires
        n <= members.len(),
        forall|i: int|
            0 <= i < members.len() ==> state.takes_geometry((#[trigger] members[i]).kind())
                && members[i].well_kinded(),
    ensures
        run(state, members_events(members, n, dimension)) == Some(state),
    decreases members, n,
{
    if n > 0 {
        lemma_protocol_members(state, members, (n - 1) as nat, dimension);
        lemma_protocol_shape(state, members[n - 1], dimension, None);
        lemma_run_concat(
            state,
            members_events(members, (n - 1) as nat, dimension),
            members[n - 1].events(dimension, None),
        );
    }
}

/// The calls of every geometry are well formed.
pub proof fn lemma_geometry_is_well_formed(shape: Shape, dimension: Dimension, srid: Option<i32>)
    requires
        shape.well_kinded(),
    ensures
        well_formed(shape.events(dimension, srid)),
{
    lemma_protocol_shape(ProtocolModel::initial(), shape, dimension, srid);
}

/// The calls of a feature that reports no fault keep the ordering rules
/// directly inside a dataset, and close every bracket that they open.
pub proof fn lemma_protocol_feature(
    feature: Feature,
    index: nat,
    srid: Option<i32>,
    wanted: bool,
)
    requires
        feature_walk(feature, index, srid, wanted).fault is None,
    ensures
        run(
            ProtocolModel::initial().opened(Bracket::Dataset),
            feature_walk(feature, index, srid, wanted).events,
        ) == Some(ProtocolModel::initial().opened(Bracket::Dataset)),
{
    let outside = ProtocolModel::initial().opened(Bracket::Dataset);
    let inside = outside.opened(Bracket::Feature);
    let shape = feature.geometry@;
    let properties = properties_walk(feature.properties@, wanted).events;
    let geometry = geometry_walk(shape, shape.dimension(), srid).events;
    let begin = Event::FeatureBegin(index as u64);
    let end = Event::FeatureEnd(index as u64);
    lemma_run_one(outside, begin);
    assert(run(inside, properties) == Some(inside)) by {
        if wanted && feature.properties@.len() > 0 {
            let reported = property_events(feature.properties@);
            let within = inside.opened(Bracket::Properties);
            lemma_run_one(inside, Event::PropertiesBegin);
            lemma_protocol_properties(within, reported, reported.len());
            assert(reported.take(reported.len() as int) =~= reported);
            lemma_run_concat(inside, seq![Event::PropertiesBegin], reported);
            lemma_run_push(
                inside,
                seq![Event::PropertiesBegin] + reported,
                Event::PropertiesEnd,
            );
            assert(within.closed().open =~= inside.open);
            assert((seq![Event::PropertiesBegin] + reported).push(Event::PropertiesEnd)
                =~= properties);
        }
    }
    lemma_view_well_kinded(feature.geometry);
    lemma_protocol_shape(inside, shape, shape.dimension(), srid);
    lemma_run_concat(outside, seq![begin], properties);
    lemma_run_concat(outside, seq![begin] + properties, geometry);
    lemma_run_push(outside, seq![begin] + properties + geometry, end);
    assert(inside.closed().open =~= outside.open);
    assert((seq![begin] + properties + geometry).push(end) =~= feature_walk(
        feature,
        index,
        srid,
        wanted,
    ).events);
}

/// Properties may follow one another directly inside their brackets.
pub proof fn lemma_protocol_properties(state: ProtocolModel, reported: Seq<Event>, n: nat)
    requires
        state.within(Bracket::Properties),
        n <= reported.len(),
        forall|i: int| 0 <= i < reported.len() ==> (#[trigger] reported[i]) is Property,
    ensures
        run(state, reported.take(n as int)) == Some(state),
    decreases n,
{
    if n > 0 {
        lemma_protocol_properties(state, reported, (n - 1) as nat);
        assert(reported.take(n as int) =~= reported.take(n - 1).push(reported[n - 1]));
        lemma_run_push(state, reported.take(n - 1), reported[n - 1]);
    }
}

/// The calls of the features from `from` on, and the closing of the
/// dataset, keep the ordering rules inside a dataset and leave nothing open,
/// if no feature reports a fault.
pub proof fn lemma_protocol_features(
    features: Seq<Feature>,
    from: nat,
    srid: Option<i32>,
    wanted: bool,
)
    requires
        features_walk(features, from, srid, wanted).fault is None,
    ensures
        run(
            ProtocolModel::initial().opened(Bracket::Dataset),
            features_walk(features, from, srid, wanted).events,
        ) == Some(ProtocolModel::initial()),
    decreases features.len() - from,
{
    let outside = ProtocolModel::initial().opened(Bracket::Dataset);
    if from >= features.len() {
        lemma_run_one(outside, Event::DatasetEnd);
        assert(outside.closed().open =~= ProtocolModel::initial().open);
    } else {
        let first = feature_walk(features[from as int], from, srid, wanted);
        let rest = features_walk(features, from + 1, srid, wanted);
        lemma_protocol_feature(features[from as int], from, srid, wanted);
        lemma_protocol_features(features, from + 1, srid, wanted);
        lemma_run_concat(outside, first.events, rest.events);
    }
}

/// The calls of every dataset that reports no fault are well formed.
pub proof fn lemma_dataset_is_well_formed(dataset: Dataset, wanted: bool)
    requires
        dataset.walk(wanted).fault is None,
    ensures
        well_formed(dataset.walk(wanted).events),
{
    let begin = Event::DatasetBegin(dataset.title());
    let rest = features_walk(dataset.features@, 0, dataset.srid, wanted);
    lemma_run_one(ProtocolModel::initial(), begin);
    lemma_protocol_features(dataset.features@, 0, dataset.srid, wanted);
    lemma_run_concat(ProtocolModel::initial(), seq![begin], rest.events);
}

/// The calls of the blobs from `at` on, and the closing of the dataset,
/// keep the ordering rules inside a dataset and leave nothing open, if no
/// blob is malformed.
pub proof fn lemma_protocol_blobs(bytes: Seq<u8>, at: int, index: nat)
    requires
        blobs_walk(bytes, at, index).fault is None,
    ensures
        run(
            ProtocolModel::initial().opened(Bracket::Dataset),
            blobs_walk(bytes, at, index).events,
        ) == Some(ProtocolModel::initial()),
    decreases bytes.len() - at,
{
    let outside = ProtocolModel::initial().opened(Bracket::Dataset);
    if at < 0 || at >= bytes.len() {
        lemma_run_one(outside, Event::DatasetEnd);
        assert(outside.closed().open =~= ProtocolModel::initial().open);
    } else {
        let inside = outside.opened(Bracket::Feature);
        let first = blob_feature_walk(bytes, at, index);
        let begin = Event::FeatureBegin(index as u64);
        let end = Event::FeatureEnd(index as u64);
        let blob = read_blob(bytes, at)->Done_0;
        let geometry = blob.shape.events(blob.dimension, blob.srid);
        lemma_read_blob(bytes, at);
        lemma_run_one(outside, begin);
        lemma_protocol_shape(inside, blob.shape, blob.dimension, blob.srid);
        lemma_run_concat(outside, seq![begin], geometry);
        lemma_run_push(outside, seq![begin] + geometry, end);
        assert(inside.closed().open =~= outside.open);
        assert((seq![begin] + geometry).push(end) =~= first.events);
        if at < blob_end(bytes, at) <= bytes.len() {
            let rest = blobs_walk(bytes, blob_end(bytes, at), index + 1);
            lemma_protocol_blobs(bytes, blob_end(bytes, at), index + 1);
            lemma_run_concat(outside, first.events, rest.events);
        }
    }
}

} // verus!
