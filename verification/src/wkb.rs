//! Decoding of well-known binary, with or without a GeoPackage header, into protocol calls.
use vstd::prelude::*;
use crate::error::{DecodeFault, ErrorModel, GeozeroError};
use crate::event::{
    accepted, delivered, lemma_delivered_fault, Call, Coordinate, Dimension, Event, GeometryKind,
    Walk,
};
use crate::geometry::{coordinate_events, members_events, ring_events, rings_events, Shape};
use crate::processor::{lemma_call, lemma_part, walked, FeatureProcessor, ProcessorSink};
use crate::walker::{lemma_members_prefix, lemma_rings_prefix, GeozeroGeometry};
use crate::wkb_model::{
    coordinate_at, coordinate_size, dimension_of_code, kind_of_code, member_kind, read_coordinates,
    blob_walk, read_blob, read_count, read_geometry, read_header, read_members, read_ring,
    read_rings, signed, u32_at, u64_at, Header, Read,
};

verus! {

/// The result of a read without the offset.
pub open spec fn unit(r: Result<usize, GeozeroError>) -> Result<(), GeozeroError> {
    match r {
        Ok(_) => Ok(()),
        Err(e) => Err(e),
    }
}

/// The read of a sequence of which the items `done` came first.
pub open spec fn prepend<T>(done: Seq<T>, rest: Read<Seq<T>>) -> Read<Seq<T>> {
    match rest {
        Read::Done(items, end) => Read::Done(done + items, end),
        Read::Failed(fault, offset) => Read::Failed(fault, offset),
    }
}

/// What the coordinates read have to say.
pub open spec fn coordinates_said(read: Read<Seq<Coordinate>>) -> Read<Seq<Event>> {
    match read {
        Read::Done(coordinates, end) => Read::Done(coordinate_events(coordinates), end),
        Read::Failed(fault, offset) => Read::Failed(fault, offset),
    }
}

/// What the rings read have to say.
pub open spec fn rings_said(read: Read<Seq<Seq<Coordinate>>>) -> Read<Seq<Event>> {
    match read {
        Read::Done(rings, end) => Read::Done(rings_events(rings, rings.len()), end),
        Read::Failed(fault, offset) => Read::Failed(fault, offset),
    }
}

/// What the members read have to say.
pub open spec fn members_said(read: Read<Seq<Shape>>, dimension: Dimension) -> Read<Seq<Event>> {
    match read {
        Read::Done(members, end) => Read::Done(
            members_events(members, members.len(), dimension),
            end,
        ),
        Read::Failed(fault, offset) => Read::Failed(fault, offset),
    }
}

/// What the geometry at `at` has to say, under the dimensionality that its
/// header declares.
pub open spec fn geometry_said(
    bytes: Seq<u8>,
    at: int,
    kind: Option<GeometryKind>,
    dimension: Option<Dimension>,
    srid: Option<i32>,
) -> Read<Seq<Event>> {
    match read_geometry(bytes, at, kind, dimension) {
        Read::Done(shape, end) => Read::Done(
            shape.events(read_header(bytes, at, kind, dimension)->Done_0.dimension, srid),
            end,
        ),
        Read::Failed(fault, offset) => Read::Failed(fault, offset),
    }
}

/// How the streaming of a value from bytes into a sink ended.
///
/// Where the bytes hold the value, the sink received the calls that describe
/// it, up to the first that it rejected, and on success the offset behind the
/// value is returned. Where they do not, the streaming failed: with the fault
/// of the bytes, or before that with the error of a call that the sink
/// rejected.
pub open spec fn streamed<P: FeatureProcessor>(
    before: P,
    after: P,
    read: Read<Seq<Event>>,
    r: Result<usize, GeozeroError>,
) -> bool {
    &&& after.wf()
    &&& after.requests_properties() == before.requests_properties()
    &&& match read {
        Read::Done(events, end) => delivered(
            before.calls(),
            Walk::of(events),
            after.calls(),
            unit(r),
        ) && (r matches Ok(at) ==> at == end),
        Read::Failed(fault, offset) => r matches Err(e) && (e@ == (ErrorModel::Decode {
            fault,
            offset: offset as usize,
        }) || (after.calls().len() > 0 && after.calls().last().outcome == Err::<(), GeozeroError>(
            e,
        ))),
    }
}

/// A walk that a sink made fail ended with the call that the sink rejected.
pub proof fn lemma_delivered_rejected(
    before: Seq<Call>,
    events: Seq<Event>,
    after: Seq<Call>,
    e: GeozeroError,
)
    requires
        delivered(before, Walk::of(events), after, Err(e)),
    ensures
        after.len() > 0,
        after.last().outcome == Err::<(), GeozeroError>(e),
{
}

fn read_u32(bytes: &[u8], at: usize, little: bool) -> (v: u32)
    requires
        at + 4 <= bytes.len(),
    ensures
        v == u32_at(bytes@, at as int, little),
{
    let b0: u32 = bytes[at] as u32;
    let b1: u32 = bytes[at + 1] as u32;
    let b2: u32 = bytes[at + 2] as u32;
    let b3: u32 = bytes[at + 3] as u32;
    if little {
        b0 + 0x100 * b1 + 0x1_0000 * b2 + 0x100_0000 * b3
    } else {
        b3 + 0x100 * b2 + 0x1_0000 * b1 + 0x100_0000 * b0
    }
}

fn read_u64(bytes: &[u8], at: usize, little: bool) -> (v: u64)
    requires
        at + 8 <= bytes.len(),
    ensures
        v == u64_at(bytes@, at as int, little),
{
    let first: u64 = read_u32(bytes, at, little) as u64;
    let second: u64 = read_u32(bytes, at + 4, little) as u64;
    if little {
        first + 0x1_0000_0000 * second
    } else {
        second + 0x1_0000_0000 * first
    }
}

fn take_coordinate(bytes: &[u8], at: usize, little: bool, dimension: Dimension) -> (c: Coordinate)
    requires
        at + coordinate_size(dimension) <= bytes.len(),
    ensures
        c == coordinate_at(bytes@, at as int, little, dimension),
{
    let x = read_u64(bytes, at, little);
    let y = read_u64(bytes, at + 8, little);
    let z = if dimension.with_z() {
        Some(read_u64(bytes, at + 16, little))
    } else {
        None
    };
    let m = if dimension.with_m() {
        Some(read_u64(bytes, at + 8 * dimension.count() - 8, little))
    } else {
        None
    };
    Coordinate { x, y, z, m }
}

fn truncated(offset: usize) -> (e: GeozeroError)
    ensures
        e@ == (ErrorModel::Decode { fault: DecodeFault::Truncated, offset }),
{
    GeozeroError::Decode { fault: DecodeFault::Truncated, offset }
}

fn stream_coordinates<P: FeatureProcessor>(
    bytes: &[u8],
    at: usize,
    count: u32,
    little: bool,
    dimension: Dimension,
    processor: &mut P,
) -> (r: Result<usize, GeozeroError>)
    requires
        at <= bytes.len(),
        old(processor).wf(),
    ensures
        streamed(
            *old(processor),
            *final(processor),
            coordinates_said(
                read_coordinates(bytes@, at as int, count as nat, little, dimension),
            ),
            r,
        ),
        r matches Ok(end) ==> at <= end <= bytes.len(),
{
    let ghost before = processor.calls();
    let ghost asks = processor.requests_properties();
    let ghost total = read_coordinates(bytes@, at as int, count as nat, little, dimension);
    let size: usize = 8 * dimension.count();
    let mut pos: usize = at;
    let mut i: u32 = 0;
    let ghost mut done: Seq<Coordinate> = Seq::empty();
    proof {
        assert(before =~= before + accepted(Seq::<Event>::empty()));
        if total is Done {
            assert(Seq::<Coordinate>::empty() + total->Done_0 =~= total->Done_0);
            assert(coordinate_events(total->Done_0).take(0) =~= Seq::<Event>::empty());
        }
    }
    while i < count
        invariant
            i <= count,
            at <= pos <= bytes.len(),
            size == coordinate_size(dimension),
            processor.wf(),
            processor.requests_properties() == asks,
            asks == old(processor).requests_properties(),
            before == old(processor).calls(),
            done.len() == i,
            total == read_coordinates(bytes@, at as int, count as nat, little, dimension),
            total == prepend(
                done,
                read_coordinates(bytes@, pos as int, (count - i) as nat, little, dimension),
            ),
            total is Done ==> processor.calls() == before + accepted(
                coordinate_events(total->Done_0).take(i as int),
            ),
        decreases count - i,
    {
        if bytes.len() - pos < size {
            return Err(truncated(pos));
        }
        let c = take_coordinate(bytes, pos, little, dimension);
        let ghost mid = processor.calls();
        let ghost rest = read_coordinates(
            bytes@,
            pos + size,
            (count - i - 1) as nat,
            little,
            dimension,
        );
        let r = processor.coordinate(c);
        proof {
            if total is Done {
                let all = total->Done_0;
                let tail = rest->Done_0;
                assert(all =~= done + (seq![c] + tail));
                assert(all[i as int] == c);
                let events = coordinate_events(all);
                assert(events.take(i as int).push(Event::Coordinate(c)) =~= events.take(i + 1));
                lemma_call(
                    before,
                    events.take(i as int),
                    mid,
                    Event::Coordinate(c),
                    processor.calls(),
                    r,
                    events,
                );
                assert(done.push(c) + tail =~= all);
            }
        }
        match r {
            Err(e) => {
                return Err(e);
            },
            Ok(_) => {},
        }
        proof {
            done = done.push(c);
        }
        pos += size;
        i += 1;
    }
    proof {
        assert(done + Seq::<Coordinate>::empty() =~= done);
        if total is Done {
            let events = coordinate_events(total->Done_0);
            assert(events.take(i as int) =~= events);
        }
    }
    Ok(pos)
}

/// What the ring read has to say.
spec fn ring_said(read: Read<Seq<Coordinate>>) -> Read<Seq<Event>> {
    match read {
        Read::Done(ring, end) => Read::Done(ring_events(ring), end),
        Read::Failed(fault, offset) => Read::Failed(fault, offset),
    }
}

fn stream_ring<P: FeatureProcessor>(
    bytes: &[u8],
    at: usize,
    little: bool,
    dimension: Dimension,
    processor: &mut P,
) -> (r: Result<usize, GeozeroError>)
    requires
        at <= bytes.len(),
        old(processor).wf(),
    ensures
        streamed(
            *old(processor),
            *final(processor),
            ring_said(read_ring(bytes@, at as int, little, dimension)),
            r,
        ),
        r matches Ok(end) ==> at <= end <= bytes.len(),
{
    let ghost before = processor.calls();
    let ghost total = read_ring(bytes@, at as int, little, dimension);
    if bytes.len() - at < 4 {
        return Err(truncated(at));
    }
    let n = read_u32(bytes, at, little);
    let ghost ring = total->Done_0;
    let ghost events = ring_events(ring);
    proof {
        assert(before =~= before + accepted(Seq::<Event>::empty()));
        assert(events =~= Seq::<Event>::empty().push(Event::RingBegin) + coordinate_events(ring)
            + seq![Event::RingEnd]);
    }
    let r = processor.ring_begin();
    proof {
        if total is Done {
            lemma_call(
                before,
                Seq::empty(),
                before,
                Event::RingBegin,
                processor.calls(),
                r,
                events,
            );
        }
    }
    match r {
        Err(e) => {
            return Err(e);
        },
        Ok(_) => {},
    }
    let ghost opened = Seq::<Event>::empty().push(Event::RingBegin);
    let ghost mid = processor.calls();
    let r = stream_coordinates(bytes, at + 4, n, little, dimension, processor);
    proof {
        if total is Done {
            lemma_part(
                before,
                opened,
                mid,
                coordinate_events(ring),
                processor.calls(),
                unit(r),
                events,
            );
        }
    }
    let end = match r {
        Err(e) => {
            return Err(e);
        },
        Ok(end) => end,
    };
    let ghost filled = opened + coordinate_events(ring);
    let ghost mid = processor.calls();
    let r = processor.ring_end();
    proof {
        if total is Done {
            assert(filled.push(Event::RingEnd) =~= events);
            lemma_call(before, filled, mid, Event::RingEnd, processor.calls(), r, events);
        }
    }
    match r {
        Err(e) => Err(e),
        Ok(_) => Ok(end),
    }
}

fn stream_rings<P: FeatureProcessor>(
    bytes: &[u8],
    at: usize,
    count: u32,
    little: bool,
    dimension: Dimension,
    processor: &mut P,
) -> (r: Result<usize, GeozeroError>)
    requires
        at <= bytes.len(),
        old(processor).wf(),
    ensures
        streamed(
            *old(processor),
            *final(processor),
            rings_said(read_rings(bytes@, at as int, count as nat, little, dimension)),
            r,
        ),
        r matches Ok(end) ==> at <= end <= bytes.len(),
{
    let ghost before = processor.calls();
    let ghost asks = processor.requests_properties();
    let ghost total = read_rings(bytes@, at as int, count as nat, little, dimension);
    let mut pos: usize = at;
    let mut i: u32 = 0;
    let ghost mut done: Seq<Seq<Coordinate>> = Seq::empty();
    proof {
        assert(before =~= before + accepted(Seq::<Event>::empty()));
        if total is Done {
            assert(Seq::<Seq<Coordinate>>::empty() + total->Done_0 =~= total->Done_0);
        }
    }
    while i < count
        invariant
            i <= count,
            at <= pos <= bytes.len(),
            processor.wf(),
            processor.requests_properties() == asks,
            asks == old(processor).requests_properties(),
            before == old(processor).calls(),
            done.len() == i,
            total == read_rings(bytes@, at as int, count as nat, little, dimension),
            total == prepend(
                done,
                read_rings(bytes@, pos as int, (count - i) as nat, little, dimension),
            ),
            total is Done ==> processor.calls() == before + accepted(
                rings_events(total->Done_0, i as nat),
            ),
        decreases count - i,
    {
        let ghost ring_read = read_ring(bytes@, pos as int, little, dimension);
        let ghost ring = ring_read->Done_0;
        let ghost all = total->Done_0;
        let ghost events = rings_events(all, all.len());
        let ghost front = rings_events(all, i as nat);
        proof {
            if total is Done {
                let rest = read_rings(
                    bytes@,
                    ring_read->Done_1,
                    (count - i - 1) as nat,
                    little,
                    dimension,
                );
                assert(all =~= done + (seq![ring] + rest->Done_0));
                assert(all[i as int] == ring);
                assert(done.push(ring) + rest->Done_0 =~= all);
                lemma_rings_prefix(all, (i + 1) as nat, all.len());
            }
        }
        let ghost mid = processor.calls();
        let r = stream_ring(bytes, pos, little, dimension, processor);
        proof {
            if total is Done {
                lemma_part(
                    before,
                    front,
                    mid,
                    ring_events(ring),
                    processor.calls(),
                    unit(r),
                    events,
                );
            } else if ring_read is Done && r is Err {
                lemma_delivered_rejected(mid, ring_events(ring), processor.calls(), r->Err_0);
            }
        }
        let next = match r {
            Err(e) => {
                return Err(e);
            },
            Ok(next) => next,
        };
        proof {
            done = done.push(ring);
        }
        pos = next;
        i += 1;
    }
    proof {
        assert(done + Seq::<Seq<Coordinate>>::empty() =~= done);
    }
    Ok(pos)
}

/// What the five bytes in front of a geometry say.
struct Head {
    kind: GeometryKind,
    dimension: Dimension,
    little: bool,
}

fn kind_from_code(code: u32) -> (kind: Option<GeometryKind>)
    ensures
        kind == kind_of_code(code as int),
{
    let base: u32 = code % 1000;
    if base == 1 {
        Some(GeometryKind::Point)
    } else if base == 2 {
        Some(GeometryKind::LineString)
    } else if base == 3 {
        Some(GeometryKind::Polygon)
    } else if base == 4 {
        Some(GeometryKind::MultiPoint)
    } else if base == 5 {
        Some(GeometryKind::MultiLineString)
    } else if base == 6 {
        Some(GeometryKind::MultiPolygon)
    } else if base == 7 {
        Some(GeometryKind::GeometryCollection)
    } else {
        None
    }
}

fn dimension_from_code(code: u32) -> (dimension: Option<Dimension>)
    ensures
        dimension == dimension_of_code(code as int),
{
    let thousands: u32 = code / 1000;
    if thousands == 0 {
        Some(Dimension::Xy)
    } else if thousands == 1 {
        Some(Dimension::Xyz)
    } else if thousands == 2 {
        Some(Dimension::Xym)
    } else if thousands == 3 {
        Some(Dimension::Xyzm)
    } else {
        None
    }
}

fn kind_of_members(kind: GeometryKind) -> (member: Option<GeometryKind>)
    ensures
        member == member_kind(kind),
{
    match kind {
        GeometryKind::MultiPoint => Some(GeometryKind::Point),
        GeometryKind::MultiLineString => Some(GeometryKind::LineString),
        GeometryKind::MultiPolygon => Some(GeometryKind::Polygon),
        _ => None,
    }
}

fn fault_at(fault: DecodeFault, offset: usize) -> (e: GeozeroError)
    ensures
        e@ == (ErrorModel::Decode { fault, offset }),
{
    GeozeroError::Decode { fault, offset }
}

fn take_header(
    bytes: &[u8],
    at: usize,
    kind: Option<GeometryKind>,
    dimension: Option<Dimension>,
) -> (r: Result<Head, GeozeroError>)
    requires
        at <= bytes.len(),
    ensures
        match read_header(bytes@, at as int, kind, dimension) {
            Read::Done(header, end) => r matches Ok(head) && head.kind == header.kind
                && head.dimension == header.dimension && head.little == header.little && end == at
                + 5 && at + 5 <= bytes.len(),
            Read::Failed(fault, offset) => r matches Err(e) && e@ == (ErrorModel::Decode {
                fault,
                offset: offset as usize,
            }),
        },
{
    if bytes.len() - at < 5 {
        return Err(truncated(at));
    }
    if bytes[at] > 1 {
        return Err(fault_at(DecodeFault::BadByteOrder, at));
    }
    let little = bytes[at] == 1;
    let code = read_u32(bytes, at + 1, little);
    let k = match kind_from_code(code) {
        Some(k) => k,
        None => {
            return Err(fault_at(DecodeFault::UnknownGeometryType, at + 1));
        },
    };
    let d = match dimension_from_code(code) {
        Some(d) => d,
        None => {
            return Err(fault_at(DecodeFault::UnknownGeometryType, at + 1));
        },
    };
    match kind {
        Some(expected) => {
            if expected != k {
                return Err(fault_at(DecodeFault::UnexpectedMember, at + 1));
            }
        },
        None => {},
    }
    match dimension {
        Some(expected) => {
            if expected != d {
                return Err(fault_at(DecodeFault::MixedDimensions, at + 1));
            }
        },
        None => {},
    }
    Ok(Head { kind: k, dimension: d, little })
}

/// What the part of a geometry behind its header and count has to say.
spec fn body_said(bytes: Seq<u8>, start: int, count: nat, header: Header) -> Read<Seq<Event>> {
    match header.kind {
        GeometryKind::Point => coordinates_said(
            read_coordinates(bytes, start, 1, header.little, header.dimension),
        ),
        GeometryKind::LineString => coordinates_said(
            read_coordinates(bytes, start, count, header.little, header.dimension),
        ),
        GeometryKind::Polygon => rings_said(
            read_rings(bytes, start, count, header.little, header.dimension),
        ),
        _ => members_said(
            read_members(bytes, start, count, member_kind(header.kind), header.dimension),
            header.dimension,
        ),
    }
}

/// A geometry says what its body says, between the two brackets of its node.
proof fn lemma_geometry_said(
    bytes: Seq<u8>,
    at: int,
    kind: Option<GeometryKind>,
    dimension: Option<Dimension>,
    srid: Option<i32>,
    header: Header,
    start: int,
    count: nat,
)
    requires
        read_header(bytes, at, kind, dimension) == Read::Done(header, at + 5),
        header.kind is Point ==> start == at + 5,
        !(header.kind is Point) ==> read_count(bytes, at + 5, header.little) == Read::Done(
            count,
            start,
        ),
    ensures
        geometry_said(bytes, at, kind, dimension, srid) == match body_said(
            bytes,
            start,
            count,
            header,
        ) {
            Read::Done(events, end) => Read::Done(
                seq![Event::GeometryBegin(header.kind, header.dimension, srid)] + events
                    + seq![Event::GeometryEnd],
                end,
            ),
            Read::Failed(fault, offset) => Read::Failed(fault, offset),
        },
{
    reveal_with_fuel(read_coordinates, 2);
    if header.kind is Point {
        let read = read_coordinates(bytes, start, 1, header.little, header.dimension);
        if read is Done {
            let c = read->Done_0[0];
            assert(read->Done_0 =~= seq![c]);
            assert(coordinate_events(read->Done_0) =~= seq![Event::Coordinate(c)]);
        }
    }
}

#[verifier::rlimit(40)]
fn stream_geometry<P: FeatureProcessor>(
    bytes: &[u8],
    at: usize,
    kind: Option<GeometryKind>,
    dimension: Option<Dimension>,
    srid: Option<i32>,
    processor: &mut P,
) -> (r: Result<usize, GeozeroError>)
    requires
        at <= bytes.len(),
        old(processor).wf(),
    ensures
        streamed(
            *old(processor),
            *final(processor),
            geometry_said(bytes@, at as int, kind, dimension, srid),
            r,
        ),
        r matches Ok(end) ==> at < end <= bytes.len(),
    decreases bytes.len() - at, 0nat,
{
    let ghost before = processor.calls();
    let ghost total = geometry_said(bytes@, at as int, kind, dimension, srid);
    let head = match take_header(bytes, at, kind, dimension) {
        Ok(head) => head,
        Err(e) => {
            return Err(e);
        },
    };
    let ghost header = read_header(bytes@, at as int, kind, dimension)->Done_0;
    let body: usize = at + 5;
    let mut start: usize = body;
    let mut count: u32 = 1;
    if !matches!(head.kind, GeometryKind::Point) {
        if bytes.len() - body < 4 {
            return Err(truncated(body));
        }
        count = read_u32(bytes, body, head.little);
        start = body + 4;
    }
    let ghost inner = body_said(bytes@, start as int, count as nat, header);
    let ghost begin = Event::GeometryBegin(head.kind, head.dimension, srid);
    let ghost events = total->Done_0;
    proof {
        lemma_geometry_said(
            bytes@,
            at as int,
            kind,
            dimension,
            srid,
            header,
            start as int,
            count as nat,
        );
        assert(before =~= before + accepted(Seq::<Event>::empty()));
        if total is Done {
            assert(events =~= Seq::<Event>::empty().push(begin) + inner->Done_0
                + seq![Event::GeometryEnd]);
        }
    }
    let r = processor.geometry_begin(head.kind, head.dimension, srid);
    proof {
        if total is Done {
            lemma_call(before, Seq::empty(), before, begin, processor.calls(), r, events);
        }
    }
    match r {
        Err(e) => {
            return Err(e);
        },
        Ok(_) => {},
    }
    let ghost opened = Seq::<Event>::empty().push(begin);
    let ghost mid = processor.calls();
    let r = match head.kind {
        GeometryKind::Point => stream_coordinates(
            bytes,
            start,
            1,
            head.little,
            head.dimension,
            processor,
        ),
        GeometryKind::LineString => stream_coordinates(
            bytes,
            start,
            count,
            head.little,
            head.dimension,
            processor,
        ),
        GeometryKind::Polygon => stream_rings(
            bytes,
            start,
            count,
            head.little,
            head.dimension,
            processor,
        ),
        _ => stream_members(
            bytes,
            start,
            count,
            kind_of_members(head.kind),
            head.dimension,
            processor,
        ),
    };
    proof {
        if total is Done {
            lemma_part(before, opened, mid, inner->Done_0, processor.calls(), unit(r), events);
        }
    }
    let end = match r {
        Err(e) => {
            return Err(e);
        },
        Ok(end) => end,
    };
    let ghost filled = opened + inner->Done_0;
    let ghost mid = processor.calls();
    let r = processor.geometry_end();
    proof {
        if total is Done {
            assert(filled.push(Event::GeometryEnd) =~= events);
            lemma_call(before, filled, mid, Event::GeometryEnd, processor.calls(), r, events);
        }
    }
    match r {
        Err(e) => Err(e),
        Ok(_) => Ok(end),
    }
}

fn stream_members<P: FeatureProcessor>(
    bytes: &[u8],
    at: usize,
    count: u32,
    kind: Option<GeometryKind>,
    dimension: Dimension,
    processor: &mut P,
) -> (r: Result<usize, GeozeroError>)
    requires
        at <= bytes.len(),
        old(processor).wf(),
    ensures
        streamed(
            *old(processor),
            *final(processor),
            members_said(
                read_members(bytes@, at as int, count as nat, kind, dimension),
                dimension,
            ),
            r,
        ),
        r matches Ok(end) ==> at <= end <= bytes.len(),
    decreases bytes.len() - at, 1nat,
{
    let ghost before = processor.calls();
    let ghost asks = processor.requests_properties();
    let ghost total = read_members(bytes@, at as int, count as nat, kind, dimension);
    let mut pos: usize = at;
    let mut i: u32 = 0;
    let ghost mut done: Seq<Shape> = Seq::empty();
    proof {
        assert(before =~= before + accepted(Seq::<Event>::empty()));
        if total is Done {
            assert(Seq::<Shape>::empty() + total->Done_0 =~= total->Done_0);
        }
    }
    while i < count
        invariant
            i <= count,
            at <= pos <= bytes.len(),
            processor.wf(),
            processor.requests_properties() == asks,
            asks == old(processor).requests_properties(),
            before == old(processor).calls(),
            done.len() == i,
            total == read_members(bytes@, at as int, count as nat, kind, dimension),
            total == prepend(
                done,
                read_members(bytes@, pos as int, (count - i) as nat, kind, dimension),
            ),
            total is Done ==> processor.calls() == before + accepted(
                members_events(total->Done_0, i as nat, dimension),
            ),
        decreases count - i,
    {
        let ghost member_read = read_geometry(bytes@, pos as int, kind, Some(dimension));
        let ghost member = member_read->Done_0;
        let ghost all = total->Done_0;
        let ghost events = members_events(all, all.len(), dimension);
        let ghost front = members_events(all, i as nat, dimension);
        let ghost part = member.events(dimension, None);
        proof {
            if total is Done {
                let rest = read_members(
                    bytes@,
                    member_read->Done_1,
                    (count - i - 1) as nat,
                    kind,
                    dimension,
                );
                assert(all =~= done + (seq![member] + rest->Done_0));
                assert(all[i as int] == member);
                assert(done.push(member) + rest->Done_0 =~= all);
                lemma_members_prefix(all, (i + 1) as nat, all.len(), dimension);
            }
        }
        let ghost mid = processor.calls();
        let r = stream_geometry(bytes, pos, kind, Some(dimension), None, processor);
        proof {
            if total is Done {
                lemma_part(before, front, mid, part, processor.calls(), unit(r), events);
            } else if member_read is Done && r is Err {
                lemma_delivered_rejected(mid, part, processor.calls(), r->Err_0);
            }
        }
        let next = match r {
            Err(e) => {
                return Err(e);
            },
            Ok(next) => next,
        };
        proof {
            done = done.push(member);
        }
        pos = next;
        i += 1;
    }
    proof {
        assert(done + Seq::<Shape>::empty() =~= done);
    }
    Ok(pos)
}

/// What the blob at `at` has to say.
pub open spec fn blob_said(bytes: Seq<u8>, at: int) -> Read<Seq<Event>> {
    match read_blob(bytes, at) {
        Read::Done(blob, end) => Read::Done(blob.shape.events(blob.dimension, blob.srid), end),
        Read::Failed(fault, offset) => Read::Failed(fault, offset),
    }
}

fn to_signed(v: u32) -> (i: i32)
    ensures
        i == signed(v as int),
{
    if v < 0x8000_0000 {
        v as i32
    } else {
        (v - 0x8000_0000) as i32 - 0x7fff_ffff - 1
    }
}

fn stream_blob<P: FeatureProcessor>(bytes: &[u8], at: usize, processor: &mut P) -> (r: Result<
    usize,
    GeozeroError,
>)
    requires
        at <= bytes.len(),
        old(processor).wf(),
    ensures
        streamed(*old(processor), *final(processor), blob_said(bytes@, at as int), r),
        r matches Ok(end) ==> at < end <= bytes.len(),
{
    proof {
        reveal(read_blob);
    }
    if bytes.len() - at < 8 {
        return Err(truncated(at));
    }
    if bytes[at] != 0x47 || bytes[at + 1] != 0x50 {
        return Err(fault_at(DecodeFault::BadMagic, at));
    }
    if bytes[at + 2] != 0 {
        return Err(fault_at(DecodeFault::UnsupportedVersion, at + 2));
    }
    let flags: u8 = bytes[at + 3];
    let code: u8 = (flags / 2) % 8;
    let size: usize = if code == 0 {
        0
    } else if code == 1 {
        32
    } else if code == 2 || code == 3 {
        48
    } else if code == 4 {
        64
    } else {
        return Err(fault_at(DecodeFault::BadFlags, at + 3));
    };
    if (flags / 32) % 2 == 1 {
        return Err(fault_at(DecodeFault::BadFlags, at + 3));
    }
    if bytes.len() - (at + 8) < size {
        return Err(truncated(at + 8));
    }
    let srid = to_signed(read_u32(bytes, at + 4, flags % 2 == 1));
    stream_geometry(bytes, at + 8 + size, None, None, Some(srid), processor)
}

/// A position in borrowed bytes.
pub struct Cursor<'a> {
    bytes: &'a [u8],
    position: usize,
}

impl<'a> Cursor<'a> {
    /// The bytes that the cursor runs over.
    pub closed spec fn data(self) -> Seq<u8> {
        self.bytes@
    }

    /// The offset of the next byte to read.
    pub closed spec fn offset(self) -> int {
        self.position as int
    }

    /// The cursor stands within its bytes or just behind them.
    pub open spec fn wf(self) -> bool {
        0 <= self.offset() <= self.data().len()
    }

    /// A cursor at the first of the given bytes.
    pub fn new(bytes: &'a [u8]) -> (cursor: Cursor<'a>)
        ensures
            cursor.wf(),
            cursor.data() == bytes@,
            cursor.offset() == 0,
    {
        Cursor { bytes, position: 0 }
    }

    /// The offset of the next byte to read.
    pub fn position(&self) -> (position: usize)
        ensures
            position == self.offset(),
    {
        self.position
    }

    /// The number of bytes that are left to read.
    pub fn remaining(&self) -> (n: usize)
        requires
            self.wf(),
        ensures
            n == self.data().len() - self.offset(),
    {
        self.bytes.len() - self.position
    }
}

/// The offset behind the blob at `at`; `at` itself where there is none.
pub open spec fn blob_end(bytes: Seq<u8>, at: int) -> int {
    match read_blob(bytes, at) {
        Read::Done(_, end) => end,
        Read::Failed(_, _) => at,
    }
}

/// Walks the GeoPackage geometry blob under the cursor into `processor`.
///
/// The blob is checked as a whole first: a malformed blob fails with its
/// fault before any call is made. Then the sink receives the canonical calls
/// of the geometry, up to the first that it rejects. On success the cursor
/// stands just behind the blob; on failure it has not moved.
pub fn process_gpkg_geom<P: FeatureProcessor>(raw: &mut Cursor<'_>, processor: &mut P) -> (r:
    Result<(), GeozeroError>)
    requires
        old(raw).wf(),
        old(processor).wf(),
    ensures
        walked(
            *old(processor),
            *final(processor),
            blob_walk(old(raw).data(), old(raw).offset()),
            r,
        ),
        final(raw).wf(),
        final(raw).data() == old(raw).data(),
        final(raw).offset() == if r is Ok {
            blob_end(old(raw).data(), old(raw).offset())
        } else {
            old(raw).offset()
        },
        r is Ok ==> final(raw).offset() > old(raw).offset(),
{
    let at = raw.position;
    let mut dry = ProcessorSink::new();
    let ghost fresh = dry.calls();
    let checked = stream_blob(raw.bytes, at, &mut dry);
    match checked {
        Err(e) => {
            proof {
                let read = blob_said(raw.bytes@, at as int);
                if read is Done {
                    lemma_delivered_rejected(fresh, read->Done_0, dry.calls(), e);
                }
                lemma_delivered_fault(processor.calls(), e);
            }
            return Err(e);
        },
        Ok(_) => {},
    }
    let r = stream_blob(raw.bytes, at, processor);
    match r {
        Err(e) => Err(e),
        Ok(end) => {
            raw.position = end;
            Ok(())
        },
    }
}

/// A GeoPackage geometry blob, borrowed.
pub struct GpkgWkb<'a>(pub &'a [u8]);

impl<'a> GeozeroGeometry for GpkgWkb<'a> {
    open spec fn walk(&self) -> Walk {
        blob_walk(self.0@, 0)
    }

    fn process_geom<P: FeatureProcessor>(&self, processor: &mut P) -> (r: Result<(), GeozeroError>) {
        let mut cursor = Cursor::new(self.0);
        process_gpkg_geom(&mut cursor, processor)
    }
}

} // verus!
