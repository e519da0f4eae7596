//! The in-memory geometry, its mathematical model, and the calls that describe it.
use vstd::prelude::*;
use crate::event::{Coordinate, Dimension, Event, GeometryKind};

verus! {

/// A geometry as a mathematical value: a point, a line, a polygon (its first
/// ring is the exterior, the others are holes), or a composite of member
/// geometries.
pub enum Shape {
    Point(Coordinate),
    LineString(Seq<Coordinate>),
    Polygon(Seq<Seq<Coordinate>>),
    Multi(GeometryKind, Seq<Shape>),
}

/// The calls that report the coordinates of one line or ring, in order.
pub open spec fn coordinate_events(coordinates: Seq<Coordinate>) -> Seq<Event> {
    Seq::new(coordinates.len(), |i: int| Event::Coordinate(coordinates[i]))
}

/// The calls that describe one ring: its coordinates between the two brackets.
pub open spec fn ring_events(ring: Seq<Coordinate>) -> Seq<Event> {
    seq![Event::RingBegin] + coordinate_events(ring) + seq![Event::RingEnd]
}

/// The calls that describe the first `n` rings of a polygon, in order.
pub open spec fn rings_events(rings: Seq<Seq<Coordinate>>, n: nat) -> Seq<Event>
    decreases n,
{
    if n == 0 || n > rings.len() {
        Seq::empty()
    } else {
        rings_events(rings, (n - 1) as nat) + ring_events(rings[n - 1])
    }
}

/// The calls that describe the first `n` of the given members, in order; a
/// member is a node of its own, without a spatial reference.
pub open spec fn members_events(members: Seq<Shape>, n: nat, dimension: Dimension) -> Seq<Event>
    decreases members, n,
{
    if n == 0 || n > members.len() {
        Seq::empty()
    } else {
        members_events(members, (n - 1) as nat, dimension) + members[n - 1].events(
            dimension,
            None,
        )
    }
}

/// Whether every one of the given coordinates has the given dimensionality.
pub open spec fn all_of_dimension(coordinates: Seq<Coordinate>, dimension: Dimension) -> bool {
    forall|i: int| 0 <= i < coordinates.len() ==> (#[trigger] coordinates[i]).dimension() == dimension
}

impl Shape {
    /// The kind of node that this geometry is reported as.
    pub open spec fn kind(self) -> GeometryKind {
        match self {
            Shape::Point(_) => GeometryKind::Point,
            Shape::LineString(_) => GeometryKind::LineString,
            Shape::Polygon(_) => GeometryKind::Polygon,
            Shape::Multi(kind, _) => kind,
        }
    }

    /// The calls between the two brackets of this geometry's node.
    pub open spec fn body(self, dimension: Dimension) -> Seq<Event>
        decreases self, 0nat,
    {
        match self {
            Shape::Point(c) => seq![Event::Coordinate(c)],
            Shape::LineString(coordinates) => coordinate_events(coordinates),
            Shape::Polygon(rings) => rings_events(rings, rings.len()),
            Shape::Multi(_, members) => members_events(members, members.len(), dimension),
        }
    }

    /// The canonical call sequence of this geometry: the node's opening
    /// bracket, its coordinates, rings or members in stored order, and its
    /// closing bracket.
    pub open spec fn events(self, dimension: Dimension, srid: Option<i32>) -> Seq<Event>
        decreases self, 1nat,
    {
        seq![Event::GeometryBegin(self.kind(), dimension, srid)] + self.body(dimension)
            + seq![Event::GeometryEnd]
    }

    /// Whether every coordinate of this geometry has the given dimensionality.
    pub open spec fn uniform(self, dimension: Dimension) -> bool
        decreases self,
    {
        match self {
            Shape::Point(c) => c.dimension() == dimension,
            Shape::LineString(coordinates) => all_of_dimension(coordinates, dimension),
            Shape::Polygon(rings) => forall|i: int|
                0 <= i < rings.len() ==> all_of_dimension(#[trigger] rings[i], dimension),
            Shape::Multi(_, members) => forall|i: int|
                0 <= i < members.len() ==> (#[trigger] members[i]).uniform(dimension),
        }
    }

    /// The dimensionality that this geometry declares: that of its leading
    /// coordinate, which is the first coordinate of its first ring or member.
    /// A geometry without one is two-dimensional.
    pub open spec fn dimension(self) -> Dimension
        decreases self,
    {
        match self {
            Shape::Point(c) => c.dimension(),
            Shape::LineString(coordinates) => if coordinates.len() > 0 {
                coordinates[0].dimension()
            } else {
                Dimension::Xy
            },
            Shape::Polygon(rings) => if rings.len() > 0 && rings[0].len() > 0 {
                rings[0][0].dimension()
            } else {
                Dimension::Xy
            },
            Shape::Multi(_, members) => if members.len() > 0 {
                members[0].dimension()
            } else {
                Dimension::Xy
            },
        }
    }

    /// Whether every composite node of this geometry is of a composite kind
    /// that admits each of its members.
    pub open spec fn well_kinded(self) -> bool
        decreases self,
    {
        match self {
            Shape::Multi(kind, members) => kind.is_composite() && forall|i: int|
                0 <= i < members.len() ==> kind.admits((#[trigger] members[i]).kind())
                    && members[i].well_kinded(),
            _ => true,
        }
    }

    /// The number of nested node levels: one for a point, line or polygon,
    /// one more than its deepest member for a composite.
    pub open spec fn depth(self) -> nat
        decreases self,
    {
        match self {
            Shape::Multi(_, members) => 1 + deepest(members, members.len()),
            _ => 1,
        }
    }
}

/// The depth of the deepest of the first `n` members, zero if there is none.
pub open spec fn deepest(members: Seq<Shape>, n: nat) -> nat
    decreases members, n,
{
    if n == 0 || n > members.len() {
        0
    } else {
        let rest = deepest(members, (n - 1) as nat);
        let last = members[n - 1].depth();
        if last > rest { last } else { rest }
    }
}

/// An in-memory geometry.
#[derive(Debug, PartialEq, Eq)]
pub enum Geometry {
    Point(Coordinate),
    LineString(Vec<Coordinate>),
    /// The rings of a polygon; the first is the exterior, the others are holes.
    Polygon(Vec<Vec<Coordinate>>),
    MultiPoint(Vec<Coordinate>),
    MultiLineString(Vec<Vec<Coordinate>>),
    MultiPolygon(Vec<Vec<Vec<Coordinate>>>),
    GeometryCollection(Vec<Geometry>),
}

/// The rings of a polygon as sequences.
pub open spec fn ring_models(rings: Seq<Vec<Coordinate>>) -> Seq<Seq<Coordinate>> {
    Seq::new(rings.len(), |i: int| rings[i]@)
}

/// The members of a multi-point.
pub open spec fn point_shapes(points: Seq<Coordinate>) -> Seq<Shape> {
    Seq::new(points.len(), |i: int| Shape::Point(points[i]))
}

/// The members of a multi-line.
pub open spec fn line_shapes(lines: Seq<Vec<Coordinate>>) -> Seq<Shape> {
    Seq::new(lines.len(), |i: int| Shape::LineString(lines[i]@))
}

/// The members of a multi-polygon.
pub open spec fn polygon_shapes(polygons: Seq<Vec<Vec<Coordinate>>>) -> Seq<Shape> {
    Seq::new(polygons.len(), |i: int| Shape::Polygon(ring_models(polygons[i]@)))
}

/// The models of the first `n` members of a collection, in order.
pub open spec fn member_shapes(members: Seq<Geometry>, n: nat) -> Seq<Shape>
    decreases members, n,
{
    if n == 0 || n > members.len() {
        Seq::empty()
    } else {
        member_shapes(members, (n - 1) as nat).push(members[n - 1].shape())
    }
}

impl Geometry {
    /// The mathematical value that this geometry stands for.
    pub open spec fn shape(self) -> Shape
        decreases self,
    {
        match self {
            Geometry::Point(c) => Shape::Point(c),
            Geometry::LineString(coordinates) => Shape::LineString(coordinates@),
            Geometry::Polygon(rings) => Shape::Polygon(ring_models(rings@)),
            Geometry::MultiPoint(points) => Shape::Multi(
                GeometryKind::MultiPoint,
                point_shapes(points@),
            ),
            Geometry::MultiLineString(lines) => Shape::Multi(
                GeometryKind::MultiLineString,
                line_shapes(lines@),
            ),
            Geometry::MultiPolygon(polygons) => Shape::Multi(
                GeometryKind::MultiPolygon,
                polygon_shapes(polygons@),
            ),
            Geometry::GeometryCollection(members) => Shape::Multi(
                GeometryKind::GeometryCollection,
                member_shapes(members@, members@.len()),
            ),
        }
    }
}

impl View for Geometry {
    type V = Shape;

    open spec fn view(&self) -> Shape {
        self.shape()
    }
}

/// The models of the first `n` members are `n` shapes, each the model of the
/// member at its place.
pub proof fn lemma_member_shapes(members: Seq<Geometry>, n: nat)
    requires
        n <= members.len(),
    ensures
        member_shapes(members, n).len() == n,
        forall|i: int| 0 <= i < n ==> (#[trigger] member_shapes(members, n)[i]) == members[i]@,
    decreases n,
{
    if n > 0 {
        lemma_member_shapes(members, (n - 1) as nat);
    }
}

/// The model of every in-memory geometry is well kinded.
pub proof fn lemma_view_well_kinded(g: Geometry)
    ensures
        g@.well_kinded(),
    decreases g,
{
    reveal_with_fuel(Shape::well_kinded, 2);
    if g is GeometryCollection {
        let members = g->GeometryCollection_0;
        let shapes = g@->Multi_1;
        lemma_member_shapes(members@, members@.len());
        assert forall|i: int| 0 <= i < shapes.len() implies (#[trigger] shapes[i]).well_kinded() by {
            assert(shapes[i] == members@[i]@);
            lemma_view_well_kinded(members@[i]);
        }
    }
}

fn same_coordinate(a: &Coordinate, b: &Coordinate) -> (same: bool)
    ensures
        same == (*a == *b),
{
    let z = match (a.z, b.z) {
        (Some(p), Some(q)) => p == q,
        (None, None) => true,
        _ => false,
    };
    let m = match (a.m, b.m) {
        (Some(p), Some(q)) => p == q,
        (None, None) => true,
        _ => false,
    };
    a.x == b.x && a.y == b.y && z && m
}

fn same_coordinates(a: &Vec<Coordinate>, b: &Vec<Coordinate>) -> (same: bool)
    ensures
        same == (a@ == b@),
{
    if a.len() != b.len() {
        return false;
    }
    let mut i: usize = 0;
    while i < a.len()
        invariant
            i <= a.len(),
            a.len() == b.len(),
            forall|j: int| 0 <= j < i ==> a@[j] == b@[j],
        decreases a.len() - i,
    {
        if !same_coordinate(&a[i], &b[i]) {
            return false;
        }
        i += 1;
    }
    assert(a@ =~= b@);
    true
}

fn same_rings(a: &Vec<Vec<Coordinate>>, b: &Vec<Vec<Coordinate>>) -> (same: bool)
    ensures
        same == (ring_models(a@) == ring_models(b@)),
{
    if a.len() != b.len() {
        assert(ring_models(a@).len() != ring_models(b@).len());
        return false;
    }
    let mut i: usize = 0;
    while i < a.len()
        invariant
            i <= a.len(),
            a.len() == b.len(),
            forall|j: int| 0 <= j < i ==> a@[j]@ == b@[j]@,
        decreases a.len() - i,
    {
        if !same_coordinates(&a[i], &b[i]) {
            assert(ring_models(a@)[i as int] != ring_models(b@)[i as int]);
            return false;
        }
        i += 1;
    }
    assert(ring_models(a@) =~= ring_models(b@));
    true
}

fn same_polygons(a: &Vec<Vec<Vec<Coordinate>>>, b: &Vec<Vec<Vec<Coordinate>>>) -> (same: bool)
    ensures
        same == (polygon_shapes(a@) == polygon_shapes(b@)),
{
    if a.len() != b.len() {
        assert(polygon_shapes(a@).len() != polygon_shapes(b@).len());
        return false;
    }
    let mut i: usize = 0;
    while i < a.len()
        invariant
            i <= a.len(),
            a.len() == b.len(),
            forall|j: int| 0 <= j < i ==> ring_models(a@[j]@) == ring_models(b@[j]@),
        decreases a.len() - i,
    {
        if !same_rings(&a[i], &b[i]) {
            assert(polygon_shapes(a@)[i as int] != polygon_shapes(b@)[i as int]);
            return false;
        }
        i += 1;
    }
    assert(polygon_shapes(a@) =~= polygon_shapes(b@));
    true
}

impl Geometry {
    /// Whether this geometry and `other` are equal in structure: of the same
    /// kind, with equal coordinates, rings and members in the same order.
    pub fn same_as(&self, other: &Geometry) -> (same: bool)
        ensures
            same == (self@ == other@),
        decreases self,
    {
        match (self, other) {
            (Geometry::Point(a), Geometry::Point(b)) => same_coordinate(a, b),
            (Geometry::LineString(a), Geometry::LineString(b)) => same_coordinates(a, b),
            (Geometry::Polygon(a), Geometry::Polygon(b)) => same_rings(a, b),
            (Geometry::MultiPoint(a), Geometry::MultiPoint(b)) => {
                let same = same_coordinates(a, b);
                proof {
                    if same {
                        assert(point_shapes(a@) =~= point_shapes(b@));
                    } else if a@.len() == b@.len() {
                        let i = choose|i: int| 0 <= i < a@.len() && a@[i] != b@[i];
                        assert(a@ =~= b@ || (0 <= i < a@.len() && a@[i] != b@[i]));
                        assert(point_shapes(a@)[i] != point_shapes(b@)[i]);
                    } else {
                        assert(point_shapes(a@).len() != point_shapes(b@).len());
                    }
                }
                same
            },
            (Geometry::MultiLineString(a), Geometry::MultiLineString(b)) => {
                let same = same_rings(a, b);
                proof {
                    if same {
                        assert(ring_models(a@).len() == ring_models(b@).len());
                        assert(a@.len() == b@.len());
                        assert forall|i: int| 0 <= i < a@.len() implies a@[i]@ == b@[i]@ by {
                            assert(ring_models(a@)[i] == a@[i]@);
                            assert(ring_models(b@)[i] == b@[i]@);
                        }
                        assert(line_shapes(a@) =~= line_shapes(b@));
                    } else if line_shapes(a@) == line_shapes(b@) {
                        assert(line_shapes(a@).len() == line_shapes(b@).len());
                        assert(a@.len() == b@.len());
                        assert forall|i: int| 0 <= i < a@.len() implies a@[i]@ == b@[i]@ by {
                            assert(line_shapes(a@)[i] == Shape::LineString(a@[i]@));
                            assert(line_shapes(b@)[i] == Shape::LineString(b@[i]@));
                        }
                        assert(ring_models(a@) =~= ring_models(b@));
                    }
                }
                same
            },
            (Geometry::MultiPolygon(a), Geometry::MultiPolygon(b)) => same_polygons(a, b),
            (Geometry::GeometryCollection(a), Geometry::GeometryCollection(b)) => {
                proof {
                    lemma_member_shapes(a@, a@.len());
                    lemma_member_shapes(b@, b@.len());
                }
                if a.len() != b.len() {
                    return false;
                }
                let mut i: usize = 0;
                while i < a.len()
                    invariant
                        i <= a.len(),
                        a.len() == b.len(),
                        self is GeometryCollection,
                        self->GeometryCollection_0 == a,
                        other is GeometryCollection,
                        other->GeometryCollection_0 == b,
                        self@->Multi_1.len() == a.len(),
                        other@->Multi_1.len() == b.len(),
                        forall|j: int| 0 <= j < a.len() ==> (#[trigger] self@->Multi_1[j]) == a@[j]@,
                        forall|j: int| 0 <= j < b.len() ==> (#[trigger] other@->Multi_1[j]) == b@[j]@,
                        forall|j: int| 0 <= j < i ==> a@[j]@ == b@[j]@,
                    decreases a.len() - i,
                {
                    if !a[i].same_as(&b[i]) {
                        assert(self@->Multi_1[i as int] != other@->Multi_1[i as int]);
                        return false;
                    }
                    i += 1;
                }
                assert(self@->Multi_1 =~= other@->Multi_1);
                true
            },
            _ => false,
        }
    }
}

} // verus!
