//! How deep the nodes of a geometry nest, read off its calls.
use vstd::prelude::*;
use crate::event::{Coordinate, Dimension, Event, GeometryKind};
use crate::geometry::{deepest, members_events, ring_events, rings_events, Shape};

verus! {

/// The number of nodes that the given calls open and leave open: openings
/// count up, closings count down.
pub open spec fn net_depth(events: Seq<Event>) -> int
    decreases events.len(),
{
    if events.len() == 0 {
        0
    } else {
        net_depth(events.drop_last()) + match events.last() {
            Event::GeometryBegin(_, _, _) => 1int,
            Event::GeometryEnd => -1int,
            _ => 0int,
        }
    }
}

/// The number of nodes that the given calls open at the nesting depth
/// `level`, where `base` nodes are open before the first call.
pub open spec fn opened_at(events: Seq<Event>, base: int, level: int) -> nat
    decreases events.len(),
{
    if events.len() == 0 {
        0
    } else {
        let front = events.drop_last();
        if events.last() is GeometryBegin && base + net_depth(front) == level {
            opened_at(front, base, level) + 1
        } else {
            opened_at(front, base, level)
        }
    }
}

/// The largest number of nodes that are open at once during the given
/// calls, where `base` nodes are open before the first call.
pub open spec fn peak_depth(events: Seq<Event>, base: int) -> int
    decreases events.len(),
{
    if events.len() == 0 {
        base
    } else {
        let front = peak_depth(events.drop_last(), base);
        let here = base + net_depth(events);
        if here > front {
            here
        } else {
            front
        }
    }
}

/// The number of nodes of a geometry that lie `level` levels below its
/// outermost node, which alone lies at level zero.
pub open spec fn nodes_at(shape: Shape, level: nat) -> nat
    decreases shape, 1nat,
{
    if level == 0 {
        1
    } else {
        match shape {
            Shape::Multi(_, members) => members_nodes_at(
                members,
                members.len(),
                (level - 1) as nat,
            ),
            _ => 0,
        }
    }
}

/// The number of nodes of the first `n` members that lie `level` levels
/// below the outermost node of their member.
pub open spec fn members_nodes_at(members: Seq<Shape>, n: nat, level: nat) -> nat
    decreases members, n,
{
    if n == 0 || n > members.len() {
        0
    } else {
        members_nodes_at(members, (n - 1) as nat, level) + nodes_at(members[n - 1], level)
    }
}

/// The depth profile of calls made one after the other.
pub proof fn lemma_depth_concat(first: Seq<Event>, second: Seq<Event>, base: int, level: int)
    ensures
        net_depth(first + second) == net_depth(first) + net_depth(second),
        opened_at(first + second, base, level) == opened_at(first, base, level) + opened_at(
            second,
            base + net_depth(first),
            level,
        ),
        peak_depth(first + second, base) == if peak_depth(second, base + net_depth(first))
            > peak_depth(first, base) {
            peak_depth(second, base + net_depth(first))
        } else {
            peak_depth(first, base)
        },
        peak_depth(second, base + net_depth(first)) >= base + net_depth(first),
    decreases second.len(),
{
    if second.len() == 0 {
        assert(first + second =~= first);
        lemma_peak_bounds(first, base);
    } else {
        lemma_depth_concat(first, second.drop_last(), base, level);
        assert((first + second).drop_last() =~= first + second.drop_last());
    }
}

/// The peak depth is at least the depth before the first call and at
/// least the depth after the last.
pub proof fn lemma_peak_bounds(events: Seq<Event>, base: int)
    ensures
        peak_depth(events, base) >= base,
        peak_depth(events, base) >= base + net_depth(events),
    decreases events.len(),
{
    if events.len() > 0 {
        lemma_peak_bounds(events.drop_last(), base);
    }
}

/// Calls that open and close no node leave the depth as it is.
pub proof fn lemma_depth_flat(events: Seq<Event>, base: int, level: int)
    requires
        forall|i: int|
            0 <= i < events.len() ==> !((#[trigger] events[i]) is GeometryBegin)
                && !(events[i] is GeometryEnd),
    ensures
        net_depth(events) == 0,
        opened_at(events, base, level) == 0,
        peak_depth(events, base) == base,
    decreases events.len(),
{
    if events.len() > 0 {
        let front = events.drop_last();
        assert forall|i: int| 0 <= i < front.len() implies !((#[trigger] front[i]) is GeometryBegin)
            && !(front[i] is GeometryEnd) by {
            assert(front[i] == events[i]);
        }
        lemma_depth_flat(front, base, level);
        assert(!(events.last() is GeometryBegin) && !(events.last() is GeometryEnd));
    }
}

/// The calls of rings open and close no node.
pub proof fn lemma_rings_flat(rings: Seq<Seq<Coordinate>>, n: nat)
    requires
        n <= rings.len(),
    ensures
        forall|i: int|
            0 <= i < rings_events(rings, n).len() ==> !((#[trigger] rings_events(rings, n)[i])
                is GeometryBegin) && !(rings_events(rings, n)[i] is GeometryEnd),
    decreases n,
{
    if n > 0 {
        lemma_rings_flat(rings, (n - 1) as nat);
        let front = rings_events(rings, (n - 1) as nat);
        let ring = ring_events(rings[n - 1]);
        assert forall|i: int| 0 <= i < rings_events(rings, n).len() implies !((
        #[trigger] rings_events(rings, n)[i]) is GeometryBegin) && !(rings_events(rings, n)[i]
            is GeometryEnd) by {
            if i < front.len() {
                assert(rings_events(rings, n)[i] == front[i]);
            } else {
                assert(rings_events(rings, n)[i] == ring[i - front.len()]);
            }
        }
    }
}

/// The depth profile of the calls of a geometry: the calls close every node
/// that they open; at every level they open as many nodes as the geometry
/// has at that level, and none above its outermost node; and the largest
/// number of nodes that are open at once is the depth of the geometry.
pub proof fn lemma_depth_profile(
    shape: Shape,
    dimension: Dimension,
    srid: Option<i32>,
    base: int,
    level: int,
)
    ensures
        net_depth(shape.events(dimension, srid)) == 0,
        opened_at(shape.events(dimension, srid), base, level) == if level >= base {
            nodes_at(shape, (level - base) as nat)
        } else {
            0
        },
        peak_depth(shape.events(dimension, srid), base) == base + shape.depth(),
    decreases shape, 1nat,
{
    let begin = seq![Event::GeometryBegin(shape.kind(), dimension, srid)];
    let body = shape.body(dimension);
    let end = seq![Event::GeometryEnd];
    let events = shape.events(dimension, srid);
    assert(net_depth(begin) == 1 && opened_at(begin, base, level) == (if level == base {
        1nat
    } else {
        0nat
    }) && peak_depth(begin, base) == base + 1) by {
        reveal_with_fuel(net_depth, 2);
        reveal_with_fuel(opened_at, 2);
        reveal_with_fuel(peak_depth, 2);
        assert(begin.drop_last() =~= Seq::<Event>::empty());
    }
    assert(net_depth(end) == -1 && opened_at(end, base + 1, level) == 0 && peak_depth(
        end,
        base + 1,
    ) == base + 1) by {
        reveal_with_fuel(net_depth, 2);
        reveal_with_fuel(opened_at, 2);
        reveal_with_fuel(peak_depth, 2);
        assert(end.drop_last() =~= Seq::<Event>::empty());
    }
    let inner: nat = if level > base {
        match shape {
            Shape::Multi(_, members) => members_nodes_at(
                members,
                members.len(),
                (level - base - 1) as nat,
            ),
            _ => 0,
        }
    } else {
        0
    };
    let below: nat = match shape {
        Shape::Multi(_, members) => deepest(members, members.len()),
        _ => 0,
    };
    assert(net_depth(body) == 0 && opened_at(body, base + 1, level) == inner && peak_depth(
        body,
        base + 1,
    ) == base + 1 + below) by {
        if shape is Multi {
            lemma_members_profile(
                shape->Multi_1,
                shape->Multi_1.len(),
                dimension,
                base + 1,
                level,
            );
        } else {
            if shape is Polygon {
                lemma_rings_flat(shape->Polygon_0, shape->Polygon_0.len());
            }
            lemma_depth_flat(body, base + 1, level);
        }
    }
    lemma_depth_concat(begin, body, base, level);
    lemma_depth_concat(begin + body, end, base, level);
    assert(events =~= begin + body + end);
}

/// The depth profile of the calls of the first `n` members.
pub proof fn lemma_members_profile(
    members: Seq<Shape>,
    n: nat,
    dimension: Dimension,
    base: int,
    level: int,
)
    requires
        n <= members.len(),
    ensures
        net_depth(members_events(members, n, dimension)) == 0,
        opened_at(members_events(members, n, dimension), base, level) == if level >= base {
            members_nodes_at(members, n, (level - base) as nat)
        } else {
            0
        },
        peak_depth(members_events(members, n, dimension), base) == base + deepest(members, n),
    decreases members, n,
{
    if n > 0 {
        let front = members_events(members, (n - 1) as nat, dimension);
        let last = members[n - 1].events(dimension, None);
        lemma_members_profile(members, (n - 1) as nat, dimension, base, level);
        lemma_depth_profile(members[n - 1], dimension, None, base, level);
        lemma_depth_concat(front, last, base, level);
    }
}

/// The calls of a composite geometry open, directly inside its outermost
/// node, exactly one node for each member, and close every node that they
/// open; the largest number of nodes open at once is the depth of the
/// geometry.
pub proof fn lemma_one_node_per_member(
    kind: GeometryKind,
    members: Seq<Shape>,
    dimension: Dimension,
    srid: Option<i32>,
)
    ensures
        opened_at(Shape::Multi(kind, members).events(dimension, srid), 0, 0) == 1,
        opened_at(Shape::Multi(kind, members).events(dimension, srid), 0, 1) == members.len(),
        net_depth(Shape::Multi(kind, members).events(dimension, srid)) == 0,
        peak_depth(Shape::Multi(kind, members).events(dimension, srid), 0) == Shape::Multi(
            kind,
            members,
        ).depth(),
{
    let shape = Shape::Multi(kind, members);
    lemma_depth_profile(shape, dimension, srid, 0, 0);
    lemma_depth_profile(shape, dimension, srid, 0, 1);
    lemma_members_count(members, members.len());
}

/// Every member has one outermost node.
pub proof fn lemma_members_count(members: Seq<Shape>, n: nat)
    requires
        n <= members.len(),
    ensures
        members_nodes_at(members, n, 0) == n,
    decreases n,
{
    if n > 0 {
        lemma_members_count(members, (n - 1) as nat);
        assert(nodes_at(members[n - 1], 0) == 1);
    }
}

} // verus!
