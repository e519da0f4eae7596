//! The geometry builder as a state machine over the event protocol.
use vstd::prelude::*;
use crate::event::{Coordinate, Dimension, Event, GeometryKind};
use crate::machine::{lemma_run_concat, lemma_run_one, lemma_run_push, run, SinkMachine};
use crate::geometry::{
    all_of_dimension, coordinate_events, members_events, ring_events, rings_events, Shape,
};

verus! {

/// A geometry node that has been opened and not yet closed.
pub enum FrameModel {
    /// A point and its coordinate, once reported.
    Point(Option<Coordinate>),
    /// A line and the coordinates reported so far.
    LineString(Seq<Coordinate>),
    /// A polygon: its closed rings, and the coordinates of the open ring, if one is open.
    Polygon(Seq<Seq<Coordinate>>, Option<Seq<Coordinate>>),
    /// A composite and the members closed so far.
    Multi(GeometryKind, Seq<Shape>),
}

impl FrameModel {
    /// The frame of a node of the given kind that has just been opened.
    pub open spec fn opened(kind: GeometryKind) -> FrameModel {
        match kind {
            GeometryKind::Point => FrameModel::Point(None),
            GeometryKind::LineString => FrameModel::LineString(Seq::empty()),
            GeometryKind::Polygon => FrameModel::Polygon(Seq::empty(), None),
            _ => FrameModel::Multi(kind, Seq::empty()),
        }
    }

    /// The frame that holds all of `shape` and waits for its closing bracket.
    pub open spec fn filled(shape: Shape) -> FrameModel {
        match shape {
            Shape::Point(c) => FrameModel::Point(Some(c)),
            Shape::LineString(coordinates) => FrameModel::LineString(coordinates),
            Shape::Polygon(rings) => FrameModel::Polygon(rings, None),
            Shape::Multi(kind, members) => FrameModel::Multi(kind, members),
        }
    }

    /// The kind of the node that this frame stands for.
    pub open spec fn kind(self) -> GeometryKind {
        match self {
            FrameModel::Point(_) => GeometryKind::Point,
            FrameModel::LineString(_) => GeometryKind::LineString,
            FrameModel::Polygon(_, _) => GeometryKind::Polygon,
            FrameModel::Multi(kind, _) => kind,
        }
    }

    /// Whether this frame takes a coordinate next.
    pub open spec fn takes_coordinate(self) -> bool {
        match self {
            FrameModel::Point(None) => true,
            FrameModel::LineString(_) => true,
            FrameModel::Polygon(_, Some(_)) => true,
            _ => false,
        }
    }

    /// This frame with one more coordinate.
    pub open spec fn with_coordinate(self, c: Coordinate) -> FrameModel {
        match self {
            FrameModel::Point(_) => FrameModel::Point(Some(c)),
            FrameModel::LineString(coordinates) => FrameModel::LineString(coordinates.push(c)),
            FrameModel::Polygon(rings, Some(ring)) => FrameModel::Polygon(rings, Some(ring.push(c))),
            _ => self,
        }
    }

    /// This polygon frame with a new, empty ring open, if none is open.
    pub open spec fn ring_opened(self) -> Option<FrameModel> {
        match self {
            FrameModel::Polygon(rings, None) => Some(FrameModel::Polygon(rings, Some(Seq::empty()))),
            _ => None,
        }
    }

    /// This polygon frame with its open ring closed, if one is open.
    pub open spec fn ring_closed(self) -> Option<FrameModel> {
        match self {
            FrameModel::Polygon(rings, Some(ring)) => Some(
                FrameModel::Polygon(rings.push(ring), None),
            ),
            _ => None,
        }
    }

    /// The geometry that this frame closes as, if it is complete: a point
    /// needs its coordinate and a polygon must have no ring open.
    pub open spec fn finished(self) -> Option<Shape> {
        match self {
            FrameModel::Point(Some(c)) => Some(Shape::Point(c)),
            FrameModel::LineString(coordinates) => Some(Shape::LineString(coordinates)),
            FrameModel::Polygon(rings, None) => Some(Shape::Polygon(rings)),
            FrameModel::Multi(kind, members) => Some(Shape::Multi(kind, members)),
            _ => None,
        }
    }

    /// Whether this frame is a composite that may hold a member of the given kind.
    pub open spec fn admits(self, kind: GeometryKind) -> bool {
        self matches FrameModel::Multi(parent, _) && parent.admits(kind)
    }

    /// This composite frame with one more member.
    pub open spec fn with_member(self, shape: Shape) -> FrameModel {
        match self {
            FrameModel::Multi(kind, members) => FrameModel::Multi(kind, members.push(shape)),
            _ => self,
        }
    }
}

/// The state of a geometry builder.
pub struct BuilderModel {
    /// The open nodes, outermost first.
    pub stack: Seq<FrameModel>,
    /// The last geometry whose outermost node was closed.
    pub result: Option<Shape>,
    /// The dimensionality declared by the outermost node last opened.
    pub dimension: Dimension,
    /// The spatial reference declared by the outermost node last opened.
    pub srid: Option<i32>,
}

impl BuilderModel {
    /// The state of a builder that has not been called.
    pub open spec fn initial() -> BuilderModel {
        BuilderModel { stack: Seq::empty(), result: None, dimension: Dimension::Xy, srid: None }
    }

    /// This state with another innermost frame in place of the current one.
    pub open spec fn replace_top(self, frame: FrameModel) -> BuilderModel {
        BuilderModel { stack: self.stack.drop_last().push(frame), ..self }
    }

    /// This state with one more open node.
    pub open spec fn open_node(self, kind: GeometryKind, dimension: Dimension, srid: Option<i32>) -> BuilderModel {
        if self.stack.len() == 0 {
            BuilderModel { stack: seq![FrameModel::opened(kind)], result: None, dimension, srid }
        } else {
            BuilderModel { stack: self.stack.push(FrameModel::opened(kind)), ..self }
        }
    }

    /// Whether a node of the given kind and dimensionality may be opened
    /// now: as the outermost node, or as a member that the innermost open
    /// composite admits, in the dimensionality declared at the root.
    pub open spec fn admits(self, kind: GeometryKind, dimension: Dimension) -> bool {
        self.stack.len() == 0 || (self.stack.last().admits(kind) && self.dimension == dimension)
    }

    /// This state after a whole node that held `shape` was closed: the
    /// shape is the result, or the newest member of the innermost open node.
    pub open spec fn close_node(self, shape: Shape) -> BuilderModel {
        let rest = self.stack.drop_last();
        if rest.len() == 0 {
            BuilderModel { stack: rest, result: Some(shape), ..self }
        } else {
            BuilderModel { stack: rest.drop_last().push(rest.last().with_member(shape)), ..self }
        }
    }

    /// The state after one call, or `None` where the builder rejects the call.
    ///
    /// Dataset, feature and property calls are accepted and change nothing.
    pub open spec fn step(self, event: Event) -> Option<BuilderModel> {
        match event {
            Event::GeometryBegin(kind, dimension, srid) => if self.admits(kind, dimension) {
                Some(self.open_node(kind, dimension, srid))
            } else {
                None
            },
            Event::Coordinate(c) => if self.stack.len() > 0 && self.stack.last().takes_coordinate()
                && c.dimension() == self.dimension {
                Some(self.replace_top(self.stack.last().with_coordinate(c)))
            } else {
                None
            },
            Event::RingBegin => if self.stack.len() > 0 {
                match self.stack.last().ring_opened() {
                    Some(frame) => Some(self.replace_top(frame)),
                    None => None,
                }
            } else {
                None
            },
            Event::RingEnd => if self.stack.len() > 0 {
                match self.stack.last().ring_closed() {
                    Some(frame) => Some(self.replace_top(frame)),
                    None => None,
                }
            } else {
                None
            },
            Event::GeometryEnd => if self.stack.len() > 0 {
                match self.stack.last().finished() {
                    Some(shape) => if self.stack.len() == 1 || self.stack[self.stack.len()
                        - 2].admits(shape.kind()) {
                        Some(self.close_node(shape))
                    } else {
                        None
                    },
                    None => None,
                }
            } else {
                None
            },
            _ => Some(self),
        }
    }

    /// This state after a whole node that held `shape` was opened, filled
    /// and closed.
    pub open spec fn with_shape(self, shape: Shape, dimension: Dimension, srid: Option<i32>) -> BuilderModel {
        if self.stack.len() == 0 {
            BuilderModel { stack: Seq::empty(), result: Some(shape), dimension, srid }
        } else {
            self.replace_top(self.stack.last().with_member(shape))
        }
    }
}

/// The message with which a builder rejects a call.
pub open spec fn refusal_text(event: Event) -> Seq<char> {
    match event {
        Event::GeometryBegin(_, _, _) => "geometry_begin: the open node takes no such member"@,
        Event::GeometryEnd => "geometry_end: no node is ready to be closed"@,
        Event::Coordinate(_) => "coordinate: no open node takes this coordinate"@,
        Event::RingBegin => "ring_begin: no polygon is open"@,
        Event::RingEnd => "ring_end: no ring is open"@,
        _ => Seq::empty(),
    }
}

impl SinkMachine for BuilderModel {
    open spec fn next(self, event: Event) -> Option<BuilderModel> {
        self.step(event)
    }
}

/// A frame that takes coordinates takes any number of them, each of the
/// declared dimensionality, one after the other.
pub proof fn lemma_run_coordinates(state: BuilderModel, coordinates: Seq<Coordinate>)
    requires
        state.stack.len() > 0,
        state.stack.last() is LineString || state.stack.last() matches FrameModel::Polygon(
            _,
            Some(_),
        ),
        all_of_dimension(coordinates, state.dimension),
    ensures
        run(state, coordinate_events(coordinates)) == Some(
            state.replace_top(
                match state.stack.last() {
                    FrameModel::LineString(a) => FrameModel::LineString(a + coordinates),
                    FrameModel::Polygon(rings, Some(a)) => FrameModel::Polygon(
                        rings,
                        Some(a + coordinates),
                    ),
                    _ => state.stack.last(),
                },
            ),
        ),
    decreases coordinates.len(),
{
    let top = state.stack.last();
    if coordinates.len() == 0 {
        assert(coordinate_events(coordinates) =~= Seq::<Event>::empty());
        if top is LineString {
            assert(top->LineString_0 + coordinates =~= top->LineString_0);
        } else {
            assert(top->Polygon_1->Some_0 + coordinates =~= top->Polygon_1->Some_0);
        }
        assert(state.stack.drop_last().push(top) =~= state.stack);
    } else {
        let front = coordinates.drop_last();
        let c = coordinates.last();
        lemma_run_coordinates(state, front);
        assert(coordinate_events(coordinates) =~= coordinate_events(front).push(
            Event::Coordinate(c),
        ));
        lemma_run_push(state, coordinate_events(front), Event::Coordinate(c));
        let mid = run(state, coordinate_events(front))->Some_0;
        assert(mid.stack.drop_last() =~= state.stack.drop_last());
        if top is LineString {
            assert((top->LineString_0 + front).push(c) =~= top->LineString_0 + coordinates);
        } else {
            assert((top->Polygon_1->Some_0 + front).push(c) =~= top->Polygon_1->Some_0
                + coordinates);
        }
        assert(mid.stack.drop_last().push(mid.stack.last().with_coordinate(c)).drop_last()
            =~= state.stack.drop_last());
    }
}

/// An open polygon without an open ring takes its rings one after the other.
pub proof fn lemma_run_rings(
    state: BuilderModel,
    rings: Seq<Seq<Coordinate>>,
    n: nat,
)
    requires
        state.stack.len() > 0,
        state.stack.last() == FrameModel::Polygon(Seq::empty(), None),
        n <= rings.len(),
        forall|i: int| 0 <= i < rings.len() ==> all_of_dimension(#[trigger] rings[i], state.dimension),
    ensures
        run(state, rings_events(rings, n)) == Some(
            state.replace_top(FrameModel::Polygon(rings.take(n as int), None)),
        ),
    decreases n,
{
    if n == 0 {
        assert(rings.take(0) =~= Seq::<Seq<Coordinate>>::empty());
        assert(state.stack.drop_last().push(state.stack.last()) =~= state.stack);
    } else {
        let m = (n - 1) as nat;
        let ring = rings[n - 1];
        let closed = rings.take(m as int);
        lemma_run_rings(state, rings, m);
        let s0 = state.replace_top(FrameModel::Polygon(closed, None));
        let s1 = s0.replace_top(FrameModel::Polygon(closed, Some(Seq::empty())));
        let s2 = s1.replace_top(FrameModel::Polygon(closed, Some(ring)));
        let s3 = s2.replace_top(FrameModel::Polygon(closed.push(ring), None));
        let front = rings_events(rings, m);
        lemma_run_push(state, front, Event::RingBegin);
        assert(s0.step(Event::RingBegin) == Some(s1));
        lemma_run_coordinates(s1, ring);
        assert(Seq::<Coordinate>::empty() + ring =~= ring);
        assert(run(s1, coordinate_events(ring)) == Some(s2));
        lemma_run_concat(state, front.push(Event::RingBegin), coordinate_events(ring));
        let filled = front.push(Event::RingBegin) + coordinate_events(ring);
        lemma_run_push(state, filled, Event::RingEnd);
        assert(s2.step(Event::RingEnd) == Some(s3));
        assert(filled.push(Event::RingEnd) =~= front + ring_events(ring));
        assert(closed.push(ring) =~= rings.take(n as int));
        assert(s3.stack =~= state.stack.drop_last().push(
            FrameModel::Polygon(rings.take(n as int), None),
        ));
    }
}

/// A builder that admits a node of the kind and dimensionality of a
/// geometry accepts the canonical calls of that geometry, and then holds it:
/// as its result, or as the newest member of its innermost open node.
pub proof fn lemma_run_shape(
    state: BuilderModel,
    shape: Shape,
    dimension: Dimension,
    srid: Option<i32>,
)
    requires
        state.admits(shape.kind(), dimension),
        shape.well_kinded(),
        shape.uniform(dimension),
    ensures
        run(state, shape.events(dimension, srid)) == Some(
            state.with_shape(shape, dimension, srid),
        ),
    decreases shape, 1nat,
{
    let begin = Event::GeometryBegin(shape.kind(), dimension, srid);
    let body = shape.body(dimension);
    let s1 = state.open_node(shape.kind(), dimension, srid);
    let s2 = s1.replace_top(FrameModel::filled(shape));
    assert(s1.dimension == dimension);
    assert(s1.stack.last() == FrameModel::opened(shape.kind()));
    assert(run(state, seq![begin]) == Some(s1)) by {
        lemma_run_one(state, begin);
    }
    assert(run(s1, body) == Some(s2)) by {
        if shape is Point {
            let c = shape->Point_0;
            lemma_run_one(s1, Event::Coordinate(c));
        } else if shape is LineString {
            lemma_run_coordinates(s1, shape->LineString_0);
            assert(Seq::<Coordinate>::empty() + shape->LineString_0 =~= shape->LineString_0);
        } else if shape is Polygon {
            let rings = shape->Polygon_0;
            lemma_run_rings(s1, rings, rings.len());
            assert(rings.take(rings.len() as int) =~= rings);
        } else {
            let members = shape->Multi_1;
            lemma_run_members(s1, shape->Multi_0, members, members.len(), dimension);
            assert(members.take(members.len() as int) =~= members);
        }
    }
    assert(s2.step(Event::GeometryEnd) == Some(state.with_shape(shape, dimension, srid))) by {
        assert(s2.stack.last() == FrameModel::filled(shape));
        assert(FrameModel::filled(shape).finished() == Some(shape));
        assert(s1.stack.drop_last() =~= state.stack);
        assert(s2.stack.drop_last() =~= state.stack);
        assert(s2.stack.len() == state.stack.len() + 1);
        if state.stack.len() > 0 {
            assert(s2.stack[s2.stack.len() - 2] == state.stack.last());
        }
        let s3 = s2.close_node(shape);
        let want = state.with_shape(shape, dimension, srid);
        assert(s3.stack =~= want.stack);
        assert(s3 == want);
    }
    lemma_run_concat(state, seq![begin], body);
    lemma_run_push(state, seq![begin] + body, Event::GeometryEnd);
    assert((seq![begin] + body).push(Event::GeometryEnd) =~= shape.events(dimension, srid));
}

/// An open composite takes its members one after the other.
pub proof fn lemma_run_members(
    state: BuilderModel,
    kind: GeometryKind,
    members: Seq<Shape>,
    n: nat,
    dimension: Dimension,
)
    requires
        state.stack.len() > 0,
        state.stack.last() == FrameModel::Multi(kind, Seq::empty()),
        state.dimension == dimension,
        n <= members.len(),
        Shape::Multi(kind, members).well_kinded(),
        Shape::Multi(kind, members).uniform(dimension),
    ensures
        run(state, members_events(members, n, dimension)) == Some(
            state.replace_top(FrameModel::Multi(kind, members.take(n as int))),
        ),
    decreases members, n,
{
    if n == 0 {
        assert(members.take(0) =~= Seq::<Shape>::empty());
        assert(state.stack.drop_last().push(state.stack.last()) =~= state.stack);
    } else {
        let m = (n - 1) as nat;
        let member = members[n - 1];
        lemma_run_members(state, kind, members, m, dimension);
        let s0 = state.replace_top(FrameModel::Multi(kind, members.take(m as int)));
        lemma_run_shape(s0, member, dimension, None);
        lemma_run_concat(
            state,
            members_events(members, m, dimension),
            member.events(dimension, None),
        );
        assert(members.take(m as int).push(member) =~= members.take(n as int));
        assert(s0.with_shape(member, dimension, None).stack =~= state.stack.drop_last().push(
            FrameModel::Multi(kind, members.take(n as int)),
        ));
    }
}

} // verus!
