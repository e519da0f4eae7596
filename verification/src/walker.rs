//! The geometry walker: describes an in-memory geometry to a sink, call by call.
use vstd::prelude::*;
use crate::error::{DecodeFault, ErrorModel, GeozeroError};
use crate::event::{
    accepted, lemma_delivered_fault, lemma_delivered_one, Coordinate, Dimension, Event,
    GeometryKind, Walk,
};
use crate::geometry::{
    all_of_dimension, coordinate_events, lemma_member_shapes, line_shapes, members_events,
    point_shapes, polygon_shapes, ring_events, ring_models, rings_events, Geometry, Shape,
};
use crate::processor::{lemma_call, lemma_part, walked, FeatureProcessor};

verus! {

/// The first `i` rings are described before the first `n` are.
pub proof fn lemma_rings_prefix(rings: Seq<Seq<Coordinate>>, i: nat, n: nat)
    requires
        i <= n <= rings.len(),
    ensures
        rings_events(rings, i).is_prefix_of(rings_events(rings, n)),
    decreases n,
{
    if i < n {
        lemma_rings_prefix(rings, i, (n - 1) as nat);
    }
}

/// The first `i` members are described before the first `n` are.
pub proof fn lemma_members_prefix(members: Seq<Shape>, i: nat, n: nat, dimension: Dimension)
    requires
        i <= n <= members.len(),
    ensures
        members_events(members, i, dimension).is_prefix_of(members_events(members, n, dimension)),
    decreases n,
{
    if i < n {
        lemma_members_prefix(members, i, (n - 1) as nat, dimension);
    }
}

/// What the walk of a geometry has to say under an expected dimensionality:
/// the canonical calls of the geometry if every coordinate has that
/// dimensionality, and otherwise nothing but the fault.
pub open spec fn geometry_walk(shape: Shape, dimension: Dimension, srid: Option<i32>) -> Walk {
    if shape.uniform(dimension) {
        Walk::of(shape.events(dimension, srid))
    } else {
        Walk::failing(ErrorModel::Decode { fault: DecodeFault::MixedDimensions, offset: 0 })
    }
}

fn emit_coordinates<P: FeatureProcessor>(coordinates: &Vec<Coordinate>, processor: &mut P) -> (r:
    Result<(), GeozeroError>)
    requires
        old(processor).wf(),
    ensures
        walked(*old(processor), *final(processor), Walk::of(coordinate_events(coordinates@)), r),
{
    let ghost before = processor.calls();
    let ghost asks = processor.requests_properties();
    let ghost total = coordinate_events(coordinates@);
    let mut i: usize = 0;
    while i < coordinates.len()
        invariant
            i <= coordinates.len(),
            processor.wf(),
            processor.requests_properties() == asks,
            asks == old(processor).requests_properties(),
            before == old(processor).calls(),
            total == coordinate_events(coordinates@),
            processor.calls() == before + accepted(total.take(i as int)),
        decreases coordinates.len() - i,
    {
        let ghost mid = processor.calls();
        let r = processor.coordinate(coordinates[i]);
        proof {
            assert(total.take(i + 1) =~= total.take(i as int).push(total[i as int]));
            lemma_call(
                before,
                total.take(i as int),
                mid,
                Event::Coordinate(coordinates@[i as int]),
                processor.calls(),
                r,
                total,
            );
        }
        if r.is_err() {
            return r;
        }
        i += 1;
    }
    proof {
        assert(total.take(i as int) =~= total);
    }
    Ok(())
}

fn emit_rings<P: FeatureProcessor>(rings: &Vec<Vec<Coordinate>>, processor: &mut P) -> (r: Result<
    (),
    GeozeroError,
>)
    requires
        old(processor).wf(),
    ensures
        walked(
            *old(processor),
            *final(processor),
            Walk::of(rings_events(ring_models(rings@), rings@.len())),
            r,
        ),
{
    let ghost before = processor.calls();
    let ghost asks = processor.requests_properties();
    let ghost models = ring_models(rings@);
    let ghost total = rings_events(models, models.len());
    let mut i: usize = 0;
    while i < rings.len()
        invariant
            i <= rings.len(),
            processor.wf(),
            processor.requests_properties() == asks,
            asks == old(processor).requests_properties(),
            before == old(processor).calls(),
            models == ring_models(rings@),
            total == rings_events(models, models.len()),
            processor.calls() == before + accepted(rings_events(models, i as nat)),
        decreases rings.len() - i,
    {
        let ghost done = rings_events(models, i as nat);
        let ghost ring = models[i as int];
        proof {
            lemma_rings_prefix(models, (i + 1) as nat, models.len());
            assert(rings_events(models, (i + 1) as nat) == done + ring_events(ring));
            assert(ring_events(ring) =~= seq![Event::RingBegin] + (coordinate_events(ring)
                + seq![Event::RingEnd]));
        }
        let ghost mid = processor.calls();
        let r = processor.ring_begin();
        proof {
            assert(done.push(Event::RingBegin).is_prefix_of(done + ring_events(ring)));
            lemma_call(before, done, mid, Event::RingBegin, processor.calls(), r, total);
        }
        if r.is_err() {
            return r;
        }
        let ghost opened = done.push(Event::RingBegin);
        let ghost mid = processor.calls();
        let r = emit_coordinates(&rings[i], processor);
        proof {
            assert((opened + coordinate_events(ring)).is_prefix_of(done + ring_events(ring)));
            lemma_part(before, opened, mid, coordinate_events(ring), processor.calls(), r, total);
        }
        if r.is_err() {
            return r;
        }
        let ghost filled = opened + coordinate_events(ring);
        let ghost mid = processor.calls();
        let r = processor.ring_end();
        proof {
            assert(filled.push(Event::RingEnd) =~= done + ring_events(ring));
            lemma_call(before, filled, mid, Event::RingEnd, processor.calls(), r, total);
        }
        if r.is_err() {
            return r;
        }
        i += 1;
    }
    Ok(())
}

/// A point, line or polygon, borrowed from wherever it is stored.
enum Leaf<'a> {
    Point(Coordinate),
    LineString(&'a Vec<Coordinate>),
    Polygon(&'a Vec<Vec<Coordinate>>),
}

impl<'a> Leaf<'a> {
    spec fn shape(self) -> Shape {
        match self {
            Leaf::Point(c) => Shape::Point(c),
            Leaf::LineString(coordinates) => Shape::LineString(coordinates@),
            Leaf::Polygon(rings) => Shape::Polygon(ring_models(rings@)),
        }
    }

    fn kind(&self) -> (kind: GeometryKind)
        ensures
            kind == self.shape().kind(),
    {
        match self {
            Leaf::Point(_) => GeometryKind::Point,
            Leaf::LineString(_) => GeometryKind::LineString,
            Leaf::Polygon(_) => GeometryKind::Polygon,
        }
    }
}

/// The members of a multi-point, multi-line or multi-polygon, borrowed.
enum Leaves<'a> {
    Points(&'a Vec<Coordinate>),
    Lines(&'a Vec<Vec<Coordinate>>),
    Polygons(&'a Vec<Vec<Vec<Coordinate>>>),
}

impl<'a> Leaves<'a> {
    spec fn shapes(self) -> Seq<Shape> {
        match self {
            Leaves::Points(points) => point_shapes(points@),
            Leaves::Lines(lines) => line_shapes(lines@),
            Leaves::Polygons(polygons) => polygon_shapes(polygons@),
        }
    }

    fn len(&self) -> (n: usize)
        ensures
            n == self.shapes().len(),
    {
        match self {
            Leaves::Points(points) => points.len(),
            Leaves::Lines(lines) => lines.len(),
            Leaves::Polygons(polygons) => polygons.len(),
        }
    }

    fn get(&self, i: usize) -> (leaf: Leaf<'a>)
        requires
            i < self.shapes().len(),
        ensures
            leaf.shape() == self.shapes()[i as int],
    {
        match self {
            Leaves::Points(points) => Leaf::Point(points[i]),
            Leaves::Lines(lines) => Leaf::LineString(&lines[i]),
            Leaves::Polygons(polygons) => Leaf::Polygon(&polygons[i]),
        }
    }
}

fn emit_leaf<P: FeatureProcessor>(
    leaf: &Leaf<'_>,
    dimension: Dimension,
    srid: Option<i32>,
    processor: &mut P,
) -> (r: Result<(), GeozeroError>)
    requires
        old(processor).wf(),
    ensures
        walked(
            *old(processor),
            *final(processor),
            Walk::of(leaf.shape().events(dimension, srid)),
            r,
        ),
{
    let ghost before = processor.calls();
    let ghost shape = leaf.shape();
    let ghost total = shape.events(dimension, srid);
    let ghost body = shape.body(dimension);
    let ghost begin = Event::GeometryBegin(shape.kind(), dimension, srid);
    let ghost opened = Seq::<Event>::empty().push(begin);
    proof {
        assert(total =~= opened + body + seq![Event::GeometryEnd]);
        assert(before =~= before + accepted(Seq::<Event>::empty()));
    }
    let r = processor.geometry_begin(leaf.kind(), dimension, srid);
    proof {
        lemma_call(before, Seq::empty(), before, begin, processor.calls(), r, total);
    }
    if r.is_err() {
        return r;
    }
    let ghost mid = processor.calls();
    let r = match leaf {
        Leaf::Point(c) => {
            let r = processor.coordinate(*c);
            proof {
                lemma_delivered_one(mid, Event::Coordinate(*c), r);
            }
            r
        },
        Leaf::LineString(coordinates) => emit_coordinates(coordinates, processor),
        Leaf::Polygon(rings) => emit_rings(rings, processor),
    };
    proof {
        lemma_part(before, opened, mid, body, processor.calls(), r, total);
    }
    if r.is_err() {
        return r;
    }
    let ghost mid = processor.calls();
    let r = processor.geometry_end();
    proof {
        assert((opened + body).push(Event::GeometryEnd) =~= total);
        lemma_call(before, opened + body, mid, Event::GeometryEnd, processor.calls(), r, total);
    }
    r
}

fn emit_leaves<P: FeatureProcessor>(
    kind: GeometryKind,
    leaves: &Leaves<'_>,
    dimension: Dimension,
    srid: Option<i32>,
    processor: &mut P,
) -> (r: Result<(), GeozeroError>)
    requires
        old(processor).wf(),
    ensures
        walked(
            *old(processor),
            *final(processor),
            Walk::of(Shape::Multi(kind, leaves.shapes()).events(dimension, srid)),
            r,
        ),
{
    let ghost before = processor.calls();
    let ghost asks = processor.requests_properties();
    let ghost members = leaves.shapes();
    let ghost total = Shape::Multi(kind, members).events(dimension, srid);
    let ghost begin = Event::GeometryBegin(kind, dimension, srid);
    let ghost opened = Seq::<Event>::empty().push(begin);
    proof {
        assert(total =~= opened + members_events(members, members.len(), dimension)
            + seq![Event::GeometryEnd]);
        assert(before =~= before + accepted(Seq::<Event>::empty()));
    }
    let r = processor.geometry_begin(kind, dimension, srid);
    proof {
        lemma_call(before, Seq::empty(), before, begin, processor.calls(), r, total);
    }
    if r.is_err() {
        return r;
    }
    let n = leaves.len();
    let mut i: usize = 0;
    proof {
        assert(opened + members_events(members, 0, dimension) =~= opened);
    }
    while i < n
        invariant
            i <= n,
            n == members.len(),
            members == leaves.shapes(),
            processor.wf(),
            processor.requests_properties() == asks,
            asks == old(processor).requests_properties(),
            before == old(processor).calls(),
            opened == Seq::<Event>::empty().push(begin),
            total == Shape::Multi(kind, members).events(dimension, srid),
            total =~= opened + members_events(members, members.len(), dimension)
                + seq![Event::GeometryEnd],
            processor.calls() == before + accepted(
                opened + members_events(members, i as nat, dimension),
            ),
        decreases n - i,
    {
        let ghost done = opened + members_events(members, i as nat, dimension);
        let ghost part = members[i as int].events(dimension, None);
        let ghost mid = processor.calls();
        let leaf = leaves.get(i);
        let r = emit_leaf(&leaf, dimension, None, processor);
        proof {
            lemma_members_prefix(members, (i + 1) as nat, members.len(), dimension);
            assert(done + part =~= opened + members_events(members, (i + 1) as nat, dimension));
            lemma_part(before, done, mid, part, processor.calls(), r, total);
        }
        if r.is_err() {
            return r;
        }
        i += 1;
    }
    let ghost filled = opened + members_events(members, members.len(), dimension);
    let ghost mid = processor.calls();
    let r = processor.geometry_end();
    proof {
        assert(filled.push(Event::GeometryEnd) =~= total);
        lemma_call(before, filled, mid, Event::GeometryEnd, processor.calls(), r, total);
    }
    r
}

impl Geometry {
    /// Describes this geometry to `processor` as one node, without checking
    /// its coordinates against `dimension`.
    fn emit<P: FeatureProcessor>(
        &self,
        dimension: Dimension,
        srid: Option<i32>,
        processor: &mut P,
    ) -> (r: Result<(), GeozeroError>)
        requires
            old(processor).wf(),
        ensures
            walked(*old(processor), *final(processor), Walk::of(self@.events(dimension, srid)), r),
        decreases self,
    {
        match self {
            Geometry::Point(c) => emit_leaf(&Leaf::Point(*c), dimension, srid, processor),
            Geometry::LineString(coordinates) => emit_leaf(
                &Leaf::LineString(coordinates),
                dimension,
                srid,
                processor,
            ),
            Geometry::Polygon(rings) => emit_leaf(&Leaf::Polygon(rings), dimension, srid, processor),
            Geometry::MultiPoint(points) => emit_leaves(
                GeometryKind::MultiPoint,
                &Leaves::Points(points),
                dimension,
                srid,
                processor,
            ),
            Geometry::MultiLineString(lines) => emit_leaves(
                GeometryKind::MultiLineString,
                &Leaves::Lines(lines),
                dimension,
                srid,
                processor,
            ),
            Geometry::MultiPolygon(polygons) => emit_leaves(
                GeometryKind::MultiPolygon,
                &Leaves::Polygons(polygons),
                dimension,
                srid,
                processor,
            ),
            Geometry::GeometryCollection(list) => {
                let ghost before = processor.calls();
                let ghost asks = processor.requests_properties();
                let ghost members = self@->Multi_1;
                let ghost total = self@.events(dimension, srid);
                let ghost begin = Event::GeometryBegin(
                    GeometryKind::GeometryCollection,
                    dimension,
                    srid,
                );
                let ghost opened = Seq::<Event>::empty().push(begin);
                proof {
                    lemma_member_shapes(list@, list@.len());
                    assert(total =~= opened + members_events(members, members.len(), dimension)
                        + seq![Event::GeometryEnd]);
                    assert(before =~= before + accepted(Seq::<Event>::empty()));
                }
                let r = processor.geometry_begin(
                    GeometryKind::GeometryCollection,
                    dimension,
                    srid,
                );
                proof {
                    lemma_call(before, Seq::empty(), before, begin, processor.calls(), r, total);
                }
                if r.is_err() {
                    return r;
                }
                let mut i: usize = 0;
                proof {
                    assert(opened + members_events(members, 0, dimension) =~= opened);
                }
                while i < list.len()
                    invariant
                        i <= list.len(),
                        members.len() == list.len(),
                        forall|j: int| 0 <= j < list.len() ==> #[trigger] members[j] == list@[j]@,
                        self is GeometryCollection,
                        self->GeometryCollection_0 == list,
                        processor.wf(),
                        processor.requests_properties() == asks,
                        asks == old(processor).requests_properties(),
                        before == old(processor).calls(),
                        opened == Seq::<Event>::empty().push(begin),
                        total == self@.events(dimension, srid),
                        total =~= opened + members_events(members, members.len(), dimension)
                            + seq![Event::GeometryEnd],
                        processor.calls() == before + accepted(
                            opened + members_events(members, i as nat, dimension),
                        ),
                    decreases list.len() - i,
                {
                    let ghost done = opened + members_events(members, i as nat, dimension);
                    let ghost part = members[i as int].events(dimension, None);
                    let ghost mid = processor.calls();
                    let r = list[i].emit(dimension, None, processor);
                    proof {
                        lemma_members_prefix(members, (i + 1) as nat, members.len(), dimension);
                        assert(done + part =~= opened + members_events(
                            members,
                            (i + 1) as nat,
                            dimension,
                        ));
                        lemma_part(before, done, mid, part, processor.calls(), r, total);
                    }
                    if r.is_err() {
                        return r;
                    }
                    i += 1;
                }
                let ghost filled = opened + members_events(members, members.len(), dimension);
                let ghost mid = processor.calls();
                let r = processor.geometry_end();
                proof {
                    assert(filled.push(Event::GeometryEnd) =~= total);
                    lemma_call(
                        before,
                        filled,
                        mid,
                        Event::GeometryEnd,
                        processor.calls(),
                        r,
                        total,
                    );
                }
                r
            },
        }
    }
}

fn coordinates_uniform(coordinates: &Vec<Coordinate>, dimension: Dimension) -> (b: bool)
    ensures
        b == all_of_dimension(coordinates@, dimension),
{
    let mut i: usize = 0;
    while i < coordinates.len()
        invariant
            i <= coordinates.len(),
            forall|j: int| 0 <= j < i ==> (#[trigger] coordinates@[j]).dimension() == dimension,
        decreases coordinates.len() - i,
    {
        if coordinates[i].dims() != dimension {
            return false;
        }
        i += 1;
    }
    true
}

fn rings_uniform(rings: &Vec<Vec<Coordinate>>, dimension: Dimension) -> (b: bool)
    ensures
        b == Shape::Polygon(ring_models(rings@)).uniform(dimension),
{
    let ghost models = ring_models(rings@);
    let mut i: usize = 0;
    while i < rings.len()
        invariant
            i <= rings.len(),
            models == ring_models(rings@),
            forall|j: int| 0 <= j < i ==> all_of_dimension(#[trigger] models[j], dimension),
        decreases rings.len() - i,
    {
        if !coordinates_uniform(&rings[i], dimension) {
            proof {
                let shape = Shape::Polygon(models);
                assert(!all_of_dimension(models[i as int], dimension));
                assert(shape.uniform(dimension) ==> all_of_dimension(
                    shape->Polygon_0[i as int],
                    dimension,
                ));
            }
            return false;
        }
        i += 1;
    }
    true
}

impl<'a> Leaf<'a> {
    fn is_uniform(&self, dimension: Dimension) -> (b: bool)
        ensures
            b == self.shape().uniform(dimension),
    {
        match self {
            Leaf::Point(c) => c.dims() == dimension,
            Leaf::LineString(coordinates) => coordinates_uniform(coordinates, dimension),
            Leaf::Polygon(rings) => rings_uniform(rings, dimension),
        }
    }

    fn dims(&self) -> (d: Dimension)
        ensures
            d == self.shape().dimension(),
    {
        match self {
            Leaf::Point(c) => c.dims(),
            Leaf::LineString(coordinates) => if coordinates.len() > 0 {
                coordinates[0].dims()
            } else {
                Dimension::Xy
            },
            Leaf::Polygon(rings) => if rings.len() > 0 && rings[0].len() > 0 {
                rings[0][0].dims()
            } else {
                Dimension::Xy
            },
        }
    }
}

impl<'a> Leaves<'a> {
    fn are_uniform(&self, kind: GeometryKind, dimension: Dimension) -> (b: bool)
        ensures
            b == Shape::Multi(kind, self.shapes()).uniform(dimension),
    {
        let ghost members = self.shapes();
        let n = self.len();
        let mut i: usize = 0;
        while i < n
            invariant
                i <= n,
                n == members.len(),
                members == self.shapes(),
                forall|j: int| 0 <= j < i ==> (#[trigger] members[j]).uniform(dimension),
            decreases n - i,
        {
            if !self.get(i).is_uniform(dimension) {
                proof {
                    let shape = Shape::Multi(kind, members);
                    assert(!members[i as int].uniform(dimension));
                    assert(shape.uniform(dimension) ==> shape->Multi_1[i as int].uniform(
                        dimension,
                    ));
                }
                return false;
            }
            i += 1;
        }
        true
    }

    fn dims(&self, kind: GeometryKind) -> (d: Dimension)
        ensures
            d == Shape::Multi(kind, self.shapes()).dimension(),
    {
        if self.len() > 0 {
            self.get(0).dims()
        } else {
            Dimension::Xy
        }
    }
}

impl Geometry {
    /// Whether every coordinate of this geometry has the given dimensionality.
    pub fn is_uniform(&self, dimension: Dimension) -> (b: bool)
        ensures
            b == self@.uniform(dimension),
        decreases self,
    {
        match self {
            Geometry::Point(c) => Leaf::Point(*c).is_uniform(dimension),
            Geometry::LineString(coordinates) => Leaf::LineString(coordinates).is_uniform(
                dimension,
            ),
            Geometry::Polygon(rings) => Leaf::Polygon(rings).is_uniform(dimension),
            Geometry::MultiPoint(points) => Leaves::Points(points).are_uniform(
                GeometryKind::MultiPoint,
                dimension,
            ),
            Geometry::MultiLineString(lines) => Leaves::Lines(lines).are_uniform(
                GeometryKind::MultiLineString,
                dimension,
            ),
            Geometry::MultiPolygon(polygons) => Leaves::Polygons(polygons).are_uniform(
                GeometryKind::MultiPolygon,
                dimension,
            ),
            Geometry::GeometryCollection(list) => {
                let ghost members = self@->Multi_1;
                proof {
                    lemma_member_shapes(list@, list@.len());
                }
                let mut i: usize = 0;
                while i < list.len()
                    invariant
                        i <= list.len(),
                        members.len() == list.len(),
                        forall|j: int| 0 <= j < list.len() ==> #[trigger] members[j] == list@[j]@,
                        self is GeometryCollection,
                        self->GeometryCollection_0 == list,
                        self@ == Shape::Multi(GeometryKind::GeometryCollection, members),
                        forall|j: int| 0 <= j < i ==> (#[trigger] members[j]).uniform(dimension),
                    decreases list.len() - i,
                {
                    if !list[i].is_uniform(dimension) {
                        proof {
                            assert(!members[i as int].uniform(dimension));
                            let shape = Shape::Multi(GeometryKind::GeometryCollection, members);
                            assert(shape.uniform(dimension) ==> shape->Multi_1[i as int].uniform(
                                dimension,
                            ));
                        }
                        return false;
                    }
                    i += 1;
                }
                true
            },
        }
    }

    /// The dimensionality that this geometry declares: that of its leading
    /// coordinate, two-dimensional if it has none.
    pub fn dims(&self) -> (d: Dimension)
        ensures
            d == self@.dimension(),
        decreases self,
    {
        match self {
            Geometry::Point(c) => c.dims(),
            Geometry::LineString(coordinates) => Leaf::LineString(coordinates).dims(),
            Geometry::Polygon(rings) => Leaf::Polygon(rings).dims(),
            Geometry::MultiPoint(points) => Leaves::Points(points).dims(GeometryKind::MultiPoint),
            Geometry::MultiLineString(lines) => Leaves::Lines(lines).dims(
                GeometryKind::MultiLineString,
            ),
            Geometry::MultiPolygon(polygons) => Leaves::Polygons(polygons).dims(
                GeometryKind::MultiPolygon,
            ),
            Geometry::GeometryCollection(list) => {
                proof {
                    lemma_member_shapes(list@, list@.len());
                }
                if list.len() > 0 {
                    list[0].dims()
                } else {
                    Dimension::Xy
                }
            },
        }
    }
}

/// Walks `geometry` into `processor` under the expected dimensionality.
///
/// A geometry with a coordinate of another dimensionality is refused before
/// any call is made. Otherwise the sink receives the geometry's canonical
/// call sequence, up to the first call that it rejects.
pub fn process_geometry<P: FeatureProcessor>(
    geometry: &Geometry,
    dimension: Dimension,
    srid: Option<i32>,
    processor: &mut P,
) -> (r: Result<(), GeozeroError>)
    requires
        old(processor).wf(),
    ensures
        walked(*old(processor), *final(processor), geometry_walk(geometry@, dimension, srid), r),
{
    if !geometry.is_uniform(dimension) {
        let e = GeozeroError::Decode { fault: DecodeFault::MixedDimensions, offset: 0 };
        proof {
            lemma_delivered_fault(processor.calls(), e);
        }
        return Err(e);
    }
    geometry.emit(dimension, srid, processor)
}

/// A source of one geometry.
pub trait GeozeroGeometry {
    /// Everything this source has to say.
    spec fn walk(&self) -> Walk;

    /// Describes the geometry to `processor`.
    fn process_geom<P: FeatureProcessor>(&self, processor: &mut P) -> (r: Result<(), GeozeroError>)
        requires
            old(processor).wf(),
        ensures
            walked(*old(processor), *final(processor), self.walk(), r),
    ;
}

impl GeozeroGeometry for Geometry {
    /// An in-memory geometry is walked under the dimensionality that it
    /// declares, without a spatial reference.
    open spec fn walk(&self) -> Walk {
        geometry_walk(self@, self@.dimension(), None)
    }

    fn process_geom<P: FeatureProcessor>(&self, processor: &mut P) -> (r: Result<(), GeozeroError>) {
        process_geometry(self, self.dims(), None, processor)
    }
}

} // verus!
