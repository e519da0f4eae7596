//! The vocabulary of the event protocol: what a call says, and what a sink has been told.
use vstd::prelude::*;
use crate::error::{ErrorModel, GeozeroError};

verus! {

/// The seven kinds of geometry node.
#[derive(Clone, Copy, Debug, PartialEq, Eq, Structural)]
pub enum GeometryKind {
    Point,
    LineString,
    Polygon,
    MultiPoint,
    MultiLineString,
    MultiPolygon,
    GeometryCollection,
}

impl GeometryKind {
    /// A composite kind holds member geometries; the other kinds hold coordinates.
    pub open spec fn is_composite(self) -> bool {
        self is MultiPoint || self is MultiLineString || self is MultiPolygon
            || self is GeometryCollection
    }

    /// Whether a node of kind `self` may hold a member of kind `member`.
    pub open spec fn admits(self, member: GeometryKind) -> bool {
        match self {
            GeometryKind::MultiPoint => member is Point,
            GeometryKind::MultiLineString => member is LineString,
            GeometryKind::MultiPolygon => member is Polygon,
            GeometryKind::GeometryCollection => true,
            _ => false,
        }
    }

    #[verifier::when_used_as_spec(is_composite)]
    pub fn composite(self) -> (b: bool)
        ensures
            b == self.is_composite(),
    {
        match self {
            GeometryKind::MultiPoint => true,
            GeometryKind::MultiLineString => true,
            GeometryKind::MultiPolygon => true,
            GeometryKind::GeometryCollection => true,
            _ => false,
        }
    }

    /// Executable form of [`GeometryKind::admits`].
    pub fn accepts_member(self, member: GeometryKind) -> (b: bool)
        ensures
            b == self.admits(member),
    {
        match self {
            GeometryKind::MultiPoint => matches!(member, GeometryKind::Point),
            GeometryKind::MultiLineString => matches!(member, GeometryKind::LineString),
            GeometryKind::MultiPolygon => matches!(member, GeometryKind::Polygon),
            GeometryKind::GeometryCollection => true,
            _ => false,
        }
    }
}

/// The number and meaning of the components of every coordinate of one geometry.
#[derive(Clone, Copy, Debug, PartialEq, Eq, Structural)]
pub enum Dimension {
    /// X and Y.
    Xy,
    /// X, Y and a height Z.
    Xyz,
    /// X, Y and a measure M.
    Xym,
    /// X, Y, Z and M.
    Xyzm,
}

impl Dimension {
    pub open spec fn has_z(self) -> bool {
        self is Xyz || self is Xyzm
    }

    pub open spec fn has_m(self) -> bool {
        self is Xym || self is Xyzm
    }

    /// The number of components per coordinate: 2, 3 or 4.
    pub open spec fn components(self) -> nat {
        2 + if self.has_z() { 1nat } else { 0 } + if self.has_m() { 1nat } else { 0 }
    }

    #[verifier::when_used_as_spec(has_z)]
    pub fn with_z(self) -> (b: bool)
        ensures
            b == self.has_z(),
    {
        matches!(self, Dimension::Xyz | Dimension::Xyzm)
    }

    #[verifier::when_used_as_spec(has_m)]
    pub fn with_m(self) -> (b: bool)
        ensures
            b == self.has_m(),
    {
        matches!(self, Dimension::Xym | Dimension::Xyzm)
    }

    /// The dimensionality with the given optional components.
    pub fn of(z: bool, m: bool) -> (d: Dimension)
        ensures
            d.has_z() == z,
            d.has_m() == m,
    {
        if z {
            if m { Dimension::Xyzm } else { Dimension::Xyz }
        } else {
            if m { Dimension::Xym } else { Dimension::Xy }
        }
    }

    /// The number of components per coordinate.
    pub fn count(self) -> (n: usize)
        ensures
            n == self.components(),
    {
        match self {
            Dimension::Xy => 2,
            Dimension::Xyz => 3,
            Dimension::Xym => 3,
            Dimension::Xyzm => 4,
        }
    }
}

/// One coordinate tuple. Every component is the bit pattern of an IEEE-754
/// double, carried through unchanged.
#[derive(Clone, Copy, Debug, PartialEq, Eq)]
pub struct Coordinate {
    pub x: u64,
    pub y: u64,
    pub z: Option<u64>,
    pub m: Option<u64>,
}

impl Coordinate {
    /// The dimensionality that this coordinate's components make up.
    pub open spec fn dimension(self) -> Dimension {
        if self.z is Some {
            if self.m is Some { Dimension::Xyzm } else { Dimension::Xyz }
        } else {
            if self.m is Some { Dimension::Xym } else { Dimension::Xy }
        }
    }

    /// A two-dimensional coordinate.
    pub fn xy(x: u64, y: u64) -> (c: Coordinate)
        ensures
            c == (Coordinate { x, y, z: None, m: None }),
            c.dimension() == Dimension::Xy,
    {
        Coordinate { x, y, z: None, m: None }
    }

    /// Executable form of [`Coordinate::dimension`].
    pub fn dims(&self) -> (d: Dimension)
        ensures
            d == self.dimension(),
    {
        Dimension::of(self.z.is_some(), self.m.is_some())
    }
}

/// The value of one feature property.
#[derive(Debug, PartialEq, Eq)]
pub enum PropertyValue {
    Null,
    Bool(bool),
    /// The bit pattern of an IEEE-754 double.
    Number(u64),
    Text(String),
}

/// The mathematical content of a [`PropertyValue`].
pub enum PropertyModel {
    Null,
    Bool(bool),
    Number(u64),
    Text(Seq<char>),
}

impl View for PropertyValue {
    type V = PropertyModel;

    open spec fn view(&self) -> PropertyModel {
        match self {
            PropertyValue::Null => PropertyModel::Null,
            PropertyValue::Bool(b) => PropertyModel::Bool(*b),
            PropertyValue::Number(n) => PropertyModel::Number(*n),
            PropertyValue::Text(s) => PropertyModel::Text(s@),
        }
    }
}

/// What one protocol call says.
pub enum Event {
    DatasetBegin(Option<Seq<char>>),
    DatasetEnd,
    FeatureBegin(u64),
    FeatureEnd(u64),
    PropertiesBegin,
    Property(Seq<char>, PropertyModel),
    PropertiesEnd,
    GeometryBegin(GeometryKind, Dimension, Option<i32>),
    GeometryEnd,
    Coordinate(Coordinate),
    RingBegin,
    RingEnd,
}

/// One call as a sink saw it: what it said and how the sink answered.
pub struct Call {
    pub event: Event,
    pub outcome: Result<(), GeozeroError>,
}

/// The dataset name as events carry it.
pub open spec fn name_model(name: Option<&str>) -> Option<Seq<char>> {
    match name {
        Some(s) => Some(s@),
        None => None,
    }
}

/// Everything a source has to say: the calls it makes on a sink that accepts
/// them all, and the fault, if any, that it reports once they are made.
pub struct Walk {
    pub events: Seq<Event>,
    pub fault: Option<ErrorModel>,
}

impl Walk {
    /// The walk that makes the given calls and then succeeds.
    pub open spec fn of(events: Seq<Event>) -> Walk {
        Walk { events, fault: None }
    }

    /// The walk that makes no call and reports `fault`.
    pub open spec fn failing(fault: ErrorModel) -> Walk {
        Walk { events: Seq::empty(), fault: Some(fault) }
    }

    /// This walk followed by `next`; nothing follows a fault.
    pub open spec fn followed_by(self, next: Walk) -> Walk {
        if self.fault is Some {
            self
        } else {
            Walk { events: self.events + next.events, fault: next.fault }
        }
    }
}

/// The calls that a sink records when it accepts each of `events` in turn.
pub open spec fn accepted(events: Seq<Event>) -> Seq<Call> {
    Seq::new(events.len(), |i: int| Call { event: events[i], outcome: Ok(()) })
}

/// How a walk ended at a sink whose record was `before` and is now `after`.
///
/// On success the sink accepted every call of the walk, in order, and the
/// source reported no fault. On failure either the sink rejected one call,
/// which then is the last one made and whose error is returned unchanged, or
/// the sink accepted every call and the source reported its fault.
pub open spec fn delivered(
    before: Seq<Call>,
    walk: Walk,
    after: Seq<Call>,
    r: Result<(), GeozeroError>,
) -> bool {
    match r {
        Ok(()) => walk.fault is None && after == before + accepted(walk.events),
        Err(e) => {
            let k = after.len() - before.len() - 1;
            ||| (walk.fault == Some(e@) && after == before + accepted(walk.events))
            ||| (0 <= k < walk.events.len() && after == (before + accepted(
                walk.events.take(k),
            )).push(Call { event: walk.events[k], outcome: Err(e) }))
        },
    }
}

/// A walk that makes no call and reports no fault has ended wherever it started.
pub proof fn lemma_delivered_nothing(before: Seq<Call>)
    ensures
        delivered(before, Walk::of(Seq::empty()), before, Ok(())),
{
    assert(before =~= before + accepted(Seq::<Event>::empty()));
}

/// One call is a walk of one event, however the sink answered.
pub proof fn lemma_delivered_one(before: Seq<Call>, event: Event, r: Result<(), GeozeroError>)
    ensures
        delivered(before, Walk::of(seq![event]), before.push(Call { event, outcome: r }), r),
{
    let walk = Walk::of(seq![event]);
    let after = before.push(Call { event, outcome: r });
    if r is Ok {
        assert(r == Ok::<(), GeozeroError>(r->Ok_0));
        assert(accepted(walk.events)[0] == (Call { event, outcome: r }));
        assert(after =~= before + accepted(walk.events));
    } else {
        assert(walk.events.take(0) =~= Seq::<Event>::empty());
        assert(before =~= before + accepted(walk.events.take(0)));
    }
}

/// A source fault reported before any call leaves the sink's record as it was.
pub proof fn lemma_delivered_fault(before: Seq<Call>, e: GeozeroError)
    ensures
        delivered(before, Walk::failing(e@), before, Err(e)),
{
    assert(before =~= before + accepted(Seq::<Event>::empty()));
}

/// Two walks that ran one after the other, the first with success, make up
/// the walk of both.
pub proof fn lemma_delivered_both(
    before: Seq<Call>,
    first: Walk,
    middle: Seq<Call>,
    second: Walk,
    after: Seq<Call>,
    r: Result<(), GeozeroError>,
)
    requires
        delivered(before, first, middle, Ok(())),
        delivered(middle, second, after, r),
    ensures
        delivered(before, first.followed_by(second), after, r),
{
    let both = first.followed_by(second);
    assert(accepted(both.events) =~= accepted(first.events) + accepted(second.events));
    assert(before + accepted(both.events) =~= middle + accepted(second.events));
    match r {
        Ok(()) => {},
        Err(e) => {
            let k = after.len() - middle.len() - 1;
            if 0 <= k < second.events.len() && after == (middle + accepted(
                second.events.take(k),
            )).push(Call { event: second.events[k], outcome: Err(e) }) {
                let j = first.events.len() + k;
                assert(both.events.take(j) =~= first.events + second.events.take(k));
                assert(accepted(both.events.take(j)) =~= accepted(first.events) + accepted(
                    second.events.take(k),
                ));
                assert(before + accepted(both.events.take(j)) =~= middle + accepted(
                    second.events.take(k),
                ));
            }
        },
    }
}

/// A walk that failed is also the failed start of any longer walk.
pub proof fn lemma_delivered_abort(
    before: Seq<Call>,
    first: Walk,
    after: Seq<Call>,
    e: GeozeroError,
    rest: Walk,
)
    requires
        delivered(before, first, after, Err(e)),
    ensures
        delivered(before, first.followed_by(rest), after, Err(e)),
{
    let both = first.followed_by(rest);
    if first.fault is None {
        let k = after.len() - before.len() - 1;
        assert(both.events.take(k) =~= first.events.take(k));
    }
}

/// Walks follow one another in the same way however they are grouped.
pub proof fn lemma_followed_by_assoc(a: Walk, b: Walk, c: Walk)
    ensures
        a.followed_by(b).followed_by(c) == a.followed_by(b.followed_by(c)),
{
    if a.fault is None && b.fault is None {
        assert((a.events + b.events) + c.events =~= a.events + (b.events + c.events));
    }
}

/// One part of a walk after the parts `done`: if it succeeds, it joins them
/// and `rest` is still to come; if it fails, the whole walk has failed there.
pub proof fn lemma_delivered_step(
    before: Seq<Call>,
    done: Walk,
    middle: Seq<Call>,
    part: Walk,
    after: Seq<Call>,
    r: Result<(), GeozeroError>,
    rest: Walk,
)
    requires
        delivered(before, done, middle, Ok(())),
        delivered(middle, part, after, r),
    ensures
        done.followed_by(part.followed_by(rest)) == done.followed_by(part).followed_by(rest),
        r is Ok ==> delivered(before, done.followed_by(part), after, Ok(())),
        r is Err ==> delivered(before, done.followed_by(part.followed_by(rest)), after, r),
{
    lemma_followed_by_assoc(done, part, rest);
    lemma_delivered_both(before, done, middle, part, after, r);
    if r is Err {
        assert(r == Err::<(), GeozeroError>(r->Err_0));
        lemma_delivered_abort(before, done.followed_by(part), after, r->Err_0, rest);
    } else {
        assert(r == Ok::<(), GeozeroError>(r->Ok_0));
    }
}

} // verus!
