//! The event protocol: the calls that every sink accepts and every source makes.
use vstd::prelude::*;
use crate::error::GeozeroError;
use crate::event::{
    accepted, delivered, lemma_delivered_abort, lemma_delivered_both, name_model, Call, Coordinate,
    Dimension, Event, GeometryKind, PropertyValue, Walk,
};

verus! {

/// What a protocol call does to a sink's record: the call is appended with
/// its outcome.
pub open spec fn recorded(
    before: Seq<Call>,
    after: Seq<Call>,
    event: Event,
    r: Result<(), GeozeroError>,
) -> bool {
    after == before.push(Call { event, outcome: r })
}

/// A sink: the consumer side of the event protocol.
///
/// A source brackets a dataset, each feature, each feature's properties, each
/// geometry node and each polygon ring with a `_begin` and an `_end` call, and
/// reports every coordinate in between. A sink answers each call with success
/// or with a failure; after a failure no further call is made on it and
/// whatever it has accumulated is discarded.
pub trait FeatureProcessor: Sized {
    /// The sink's own invariant.
    spec fn wf(&self) -> bool;

    /// Every call made on this sink so far, oldest first, with its outcome.
    spec fn calls(&self) -> Seq<Call>;

    /// Whether this sink asks for feature properties.
    spec fn requests_properties(&self) -> bool;

    /// Whether sources should report feature properties to this sink.
    fn wants_properties(&self) -> (b: bool)
        requires
            self.wf(),
        ensures
            b == self.requests_properties(),
    ;

    /// Opens a dataset, named or not.
    fn dataset_begin(&mut self, name: Option<&str>) -> (r: Result<(), GeozeroError>)
        requires
            old(self).wf(),
        ensures
            final(self).wf(),
            final(self).requests_properties() == old(self).requests_properties(),
            recorded(old(self).calls(), final(self).calls(), Event::DatasetBegin(name_model(name)), r),
    ;

    /// Closes the dataset.
    fn dataset_end(&mut self) -> (r: Result<(), GeozeroError>)
        requires
            old(self).wf(),
        ensures
            final(self).wf(),
            final(self).requests_properties() == old(self).requests_properties(),
            recorded(old(self).calls(), final(self).calls(), Event::DatasetEnd, r),
    ;

    /// Opens the feature with the given zero-based ordinal.
    fn feature_begin(&mut self, index: u64) -> (r: Result<(), GeozeroError>)
        requires
            old(self).wf(),
        ensures
            final(self).wf(),
            final(self).requests_properties() == old(self).requests_properties(),
            recorded(old(self).calls(), final(self).calls(), Event::FeatureBegin(index), r),
    ;

    /// Closes the feature with the given ordinal.
    fn feature_end(&mut self, index: u64) -> (r: Result<(), GeozeroError>)
        requires
            old(self).wf(),
        ensures
            final(self).wf(),
            final(self).requests_properties() == old(self).requests_properties(),
            recorded(old(self).calls(), final(self).calls(), Event::FeatureEnd(index), r),
    ;

    /// Opens the properties of the current feature.
    fn properties_begin(&mut self) -> (r: Result<(), GeozeroError>)
        requires
            old(self).wf(),
        ensures
            final(self).wf(),
            final(self).requests_properties() == old(self).requests_properties(),
            recorded(old(self).calls(), final(self).calls(), Event::PropertiesBegin, r),
    ;

    /// Reports one property of the current feature.
    fn property(&mut self, name: &str, value: &PropertyValue) -> (r: Result<(), GeozeroError>)
        requires
            old(self).wf(),
        ensures
            final(self).wf(),
            final(self).requests_properties() == old(self).requests_properties(),
            recorded(old(self).calls(), final(self).calls(), Event::Property(name@, value@), r),
    ;

    /// Closes the properties of the current feature.
    fn properties_end(&mut self) -> (r: Result<(), GeozeroError>)
        requires
            old(self).wf(),
        ensures
            final(self).wf(),
            final(self).requests_properties() == old(self).requests_properties(),
            recorded(old(self).calls(), final(self).calls(), Event::PropertiesEnd, r),
    ;

    /// Opens a geometry node of the given kind and dimensionality.
    fn geometry_begin(&mut self, kind: GeometryKind, dimension: Dimension, srid: Option<i32>) -> (r:
        Result<(), GeozeroError>)
        requires
            old(self).wf(),
        ensures
            final(self).wf(),
            final(self).requests_properties() == old(self).requests_properties(),
            recorded(old(self).calls(), final(self).calls(), Event::GeometryBegin(kind, dimension, srid), r),
    ;

    /// Closes the innermost open geometry node.
    fn geometry_end(&mut self) -> (r: Result<(), GeozeroError>)
        requires
            old(self).wf(),
        ensures
            final(self).wf(),
            final(self).requests_properties() == old(self).requests_properties(),
            recorded(old(self).calls(), final(self).calls(), Event::GeometryEnd, r),
    ;

    /// Reports one coordinate of the innermost open node or ring.
    fn coordinate(&mut self, coordinate: Coordinate) -> (r: Result<(), GeozeroError>)
        requires
            old(self).wf(),
        ensures
            final(self).wf(),
            final(self).requests_properties() == old(self).requests_properties(),
            recorded(old(self).calls(), final(self).calls(), Event::Coordinate(coordinate), r),
    ;

    /// Opens a ring of the innermost open polygon.
    fn ring_begin(&mut self) -> (r: Result<(), GeozeroError>)
        requires
            old(self).wf(),
        ensures
            final(self).wf(),
            final(self).requests_properties() == old(self).requests_properties(),
            recorded(old(self).calls(), final(self).calls(), Event::RingBegin, r),
    ;

    /// Closes the open ring.
    fn ring_end(&mut self) -> (r: Result<(), GeozeroError>)
        requires
            old(self).wf(),
        ensures
            final(self).wf(),
            final(self).requests_properties() == old(self).requests_properties(),
            recorded(old(self).calls(), final(self).calls(), Event::RingEnd, r),
    ;
}

/// How a walk ended at a sink: the sink is still well formed, still asks for
/// properties or not as before, and its record has grown as [`delivered`] says.
pub open spec fn walked<P: FeatureProcessor>(
    before: P,
    after: P,
    walk: Walk,
    r: Result<(), GeozeroError>,
) -> bool {
    &&& after.wf()
    &&& after.requests_properties() == before.requests_properties()
    &&& delivered(before.calls(), walk, after.calls(), r)
}

/// One more call after the events `done` were accepted: if the sink accepts
/// it, it joins them; if not, the walk of `total` has failed there.
pub proof fn lemma_call(
    before: Seq<Call>,
    done: Seq<Event>,
    mid: Seq<Call>,
    event: Event,
    now: Seq<Call>,
    r: Result<(), GeozeroError>,
    total: Seq<Event>,
)
    requires
        mid == before + accepted(done),
        recorded(mid, now, event, r),
        done.push(event).is_prefix_of(total),
    ensures
        r is Ok ==> now == before + accepted(done.push(event)),
        r is Err ==> delivered(before, Walk::of(total), now, r),
{
    let k = done.len() as int;
    assert(done.push(event)[k] == event);
    assert(total[k] == event);
    if r is Ok {
        assert(r == Ok::<(), GeozeroError>(r->Ok_0));
        assert(now =~= before + accepted(done.push(event)));
    } else {
        assert(total.take(k) =~= done);
        assert(r == Err::<(), GeozeroError>(r->Err_0));
    }
}

/// A walk of `part` after the events `done` were accepted: if it succeeds,
/// its events join them; if not, the walk of `total` has failed there.
pub proof fn lemma_part(
    before: Seq<Call>,
    done: Seq<Event>,
    mid: Seq<Call>,
    part: Seq<Event>,
    now: Seq<Call>,
    r: Result<(), GeozeroError>,
    total: Seq<Event>,
)
    requires
        mid == before + accepted(done),
        delivered(mid, Walk::of(part), now, r),
        (done + part).is_prefix_of(total),
    ensures
        r is Ok ==> now == before + accepted(done + part),
        r is Err ==> delivered(before, Walk::of(total), now, r),
{
    lemma_delivered_both(before, Walk::of(done), mid, Walk::of(part), now, r);
    assert(Walk::of(done).followed_by(Walk::of(part)) == Walk::of(done + part));
    if r is Err {
        let rest = total.skip((done + part).len() as int);
        assert(r == Err::<(), GeozeroError>(r->Err_0));
        lemma_delivered_abort(before, Walk::of(done + part), now, r->Err_0, Walk::of(rest));
        assert((done + part) + rest =~= total);
    } else {
        assert(r == Ok::<(), GeozeroError>(r->Ok_0));
    }
}

/// A sink that accepts every call and keeps nothing: walking a source into
/// it shows whether the source is well formed.
pub struct ProcessorSink {
    calls: Ghost<Seq<Call>>,
}

impl ProcessorSink {
    /// A sink that has not been called.
    pub fn new() -> (sink: ProcessorSink)
        ensures
            sink.wf(),
            sink.calls() == Seq::<Call>::empty(),
    {
        ProcessorSink { calls: Ghost(Seq::empty()) }
    }

    fn pass(&mut self, Ghost(event): Ghost<Event>) -> (r: Result<(), GeozeroError>)
        requires
            old(self).wf(),
        ensures
            final(self).wf(),
            recorded(old(self).calls(), final(self).calls(), event, r),
            r is Ok,
    {
        let r = Ok(());
        self.calls = Ghost(self.calls@.push(Call { event, outcome: r }));
        r
    }
}

impl FeatureProcessor for ProcessorSink {
    /// Every call so far was accepted.
    open spec fn wf(&self) -> bool {
        forall|i: int| 0 <= i < self.calls().len() ==> (#[trigger] self.calls()[i]).outcome is Ok
    }

    closed spec fn calls(&self) -> Seq<Call> {
        self.calls@
    }

    open spec fn requests_properties(&self) -> bool {
        false
    }

    fn wants_properties(&self) -> (b: bool) {
        false
    }

    fn dataset_begin(&mut self, name: Option<&str>) -> (r: Result<(), GeozeroError>)
        ensures
            r is Ok,
    {
        self.pass(Ghost(Event::DatasetBegin(name_model(name))))
    }

    fn dataset_end(&mut self) -> (r: Result<(), GeozeroError>)
        ensures
            r is Ok,
    {
        self.pass(Ghost(Event::DatasetEnd))
    }

    fn feature_begin(&mut self, index: u64) -> (r: Result<(), GeozeroError>)
        ensures
            r is Ok,
    {
        self.pass(Ghost(Event::FeatureBegin(index)))
    }

    fn feature_end(&mut self, index: u64) -> (r: Result<(), GeozeroError>)
        ensures
            r is Ok,
    {
        self.pass(Ghost(Event::FeatureEnd(index)))
    }

    fn properties_begin(&mut self) -> (r: Result<(), GeozeroError>)
        ensures
            r is Ok,
    {
        self.pass(Ghost(Event::PropertiesBegin))
    }

    fn property(&mut self, name: &str, value: &PropertyValue) -> (r: Result<(), GeozeroError>)
        ensures
            r is Ok,
    {
        self.pass(Ghost(Event::Property(name@, value@)))
    }

    fn properties_end(&mut self) -> (r: Result<(), GeozeroError>)
        ensures
            r is Ok,
    {
        self.pass(Ghost(Event::PropertiesEnd))
    }

    fn geometry_begin(&mut self, kind: GeometryKind, dimension: Dimension, srid: Option<i32>) -> (r:
        Result<(), GeozeroError>)
        ensures
            r is Ok,
    {
        self.pass(Ghost(Event::GeometryBegin(kind, dimension, srid)))
    }

    fn geometry_end(&mut self) -> (r: Result<(), GeozeroError>)
        ensures
            r is Ok,
    {
        self.pass(Ghost(Event::GeometryEnd))
    }

    fn coordinate(&mut self, coordinate: Coordinate) -> (r: Result<(), GeozeroError>)
        ensures
            r is Ok,
    {
        self.pass(Ghost(Event::Coordinate(coordinate)))
    }

    fn ring_begin(&mut self) -> (r: Result<(), GeozeroError>)
        ensures
            r is Ok,
    {
        self.pass(Ghost(Event::RingBegin))
    }

    fn ring_end(&mut self) -> (r: Result<(), GeozeroError>)
        ensures
            r is Ok,
    {
        self.pass(Ghost(Event::RingEnd))
    }
}

} // verus!
