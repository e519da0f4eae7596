//! What a well-known-binary geometry, with or without a GeoPackage header, encodes.
use vstd::prelude::*;
use crate::error::{DecodeFault, ErrorModel};
use crate::event::{Coordinate, Dimension, GeometryKind, Walk};
use crate::geometry::{all_of_dimension, Shape};

verus! {

/// The outcome of reading a value from bytes: the value and the offset just
/// behind it, or what is wrong and the offset of what is wrong.
pub enum Read<T> {
    Done(T, int),
    Failed(DecodeFault, int),
}

/// The unsigned 32-bit integer in the four bytes at `at`.
pub open spec fn u32_at(bytes: Seq<u8>, at: int, little: bool) -> int {
    if little {
        bytes[at] + 0x100 * bytes[at + 1] + 0x1_0000 * bytes[at + 2] + 0x100_0000 * bytes[at + 3]
    } else {
        bytes[at + 3] + 0x100 * bytes[at + 2] + 0x1_0000 * bytes[at + 1] + 0x100_0000 * bytes[at]
    }
}

/// The 64 bits in the eight bytes at `at`.
pub open spec fn u64_at(bytes: Seq<u8>, at: int, little: bool) -> int {
    if little {
        u32_at(bytes, at, true) + 0x1_0000_0000 * u32_at(bytes, at + 4, true)
    } else {
        u32_at(bytes, at + 4, false) + 0x1_0000_0000 * u32_at(bytes, at, false)
    }
}

/// The signed integer with the same 32 bits as the unsigned `v`.
pub open spec fn signed(v: int) -> int {
    if v < 0x8000_0000 {
        v
    } else {
        v - 0x1_0000_0000
    }
}

/// The number of bytes of one coordinate: eight for each component.
pub open spec fn coordinate_size(dimension: Dimension) -> int {
    8 * (dimension.components() as int)
}

/// The coordinate in the bytes at `at`: X, Y, then Z and M as far as the
/// dimensionality has them.
pub open spec fn coordinate_at(bytes: Seq<u8>, at: int, little: bool, dimension: Dimension) -> Coordinate {
    Coordinate {
        x: u64_at(bytes, at, little) as u64,
        y: u64_at(bytes, at + 8, little) as u64,
        z: if dimension.has_z() {
            Some(u64_at(bytes, at + 16, little) as u64)
        } else {
            None
        },
        m: if dimension.has_m() {
            Some(u64_at(bytes, at + coordinate_size(dimension) - 8, little) as u64)
        } else {
            None
        },
    }
}

/// The `count` coordinates at `at`.
pub open spec fn read_coordinates(
    bytes: Seq<u8>,
    at: int,
    count: nat,
    little: bool,
    dimension: Dimension,
) -> Read<Seq<Coordinate>>
    decreases count,
{
    if count == 0 {
        Read::Done(Seq::empty(), at)
    } else if at + coordinate_size(dimension) > bytes.len() {
        Read::Failed(DecodeFault::Truncated, at)
    } else {
        match read_coordinates(
            bytes,
            at + coordinate_size(dimension),
            (count - 1) as nat,
            little,
            dimension,
        ) {
            Read::Done(rest, end) => Read::Done(
                seq![coordinate_at(bytes, at, little, dimension)] + rest,
                end,
            ),
            Read::Failed(fault, offset) => Read::Failed(fault, offset),
        }
    }
}

/// The count in the four bytes at `at`.
pub open spec fn read_count(bytes: Seq<u8>, at: int, little: bool) -> Read<nat> {
    if at + 4 > bytes.len() {
        Read::Failed(DecodeFault::Truncated, at)
    } else {
        Read::Done(u32_at(bytes, at, little) as nat, at + 4)
    }
}

/// The ring at `at`: a count and as many coordinates.
pub open spec fn read_ring(bytes: Seq<u8>, at: int, little: bool, dimension: Dimension) -> Read<
    Seq<Coordinate>,
> {
    match read_count(bytes, at, little) {
        Read::Done(n, start) => read_coordinates(bytes, start, n, little, dimension),
        Read::Failed(fault, offset) => Read::Failed(fault, offset),
    }
}

/// The `count` rings at `at`.
pub open spec fn read_rings(
    bytes: Seq<u8>,
    at: int,
    count: nat,
    little: bool,
    dimension: Dimension,
) -> Read<Seq<Seq<Coordinate>>>
    decreases count,
{
    if count == 0 {
        Read::Done(Seq::empty(), at)
    } else {
        match read_ring(bytes, at, little, dimension) {
            Read::Done(ring, next) => match read_rings(
                bytes,
                next,
                (count - 1) as nat,
                little,
                dimension,
            ) {
                Read::Done(rest, end) => Read::Done(seq![ring] + rest, end),
                Read::Failed(fault, offset) => Read::Failed(fault, offset),
            },
            Read::Failed(fault, offset) => Read::Failed(fault, offset),
        }
    }
}

/// The kind that a geometry type code names.
pub open spec fn kind_of_code(code: int) -> Option<GeometryKind> {
    let base = code % 1000;
    if base == 1 {
        Some(GeometryKind::Point)
    } else if base == 2 {
        Some(GeometryKind::LineString)
    } else if base == 3 {
        Some(GeometryKind::Polygon)
    } else if base == 4 {
        Some(GeometryKind::MultiPoint)
    } else if base == 5 {
        Some(GeometryKind::MultiLineString)
    } else if base == 6 {
        Some(GeometryKind::MultiPolygon)
    } else if base == 7 {
        Some(GeometryKind::GeometryCollection)
    } else {
        None
    }
}

/// The dimensionality that a geometry type code names: the thousands say
/// whether there is a Z, an M, or both.
pub open spec fn dimension_of_code(code: int) -> Option<Dimension> {
    let thousands = code / 1000;
    if thousands == 0 {
        Some(Dimension::Xy)
    } else if thousands == 1 {
        Some(Dimension::Xyz)
    } else if thousands == 2 {
        Some(Dimension::Xym)
    } else if thousands == 3 {
        Some(Dimension::Xyzm)
    } else {
        None
    }
}

/// What the five bytes in front of every geometry say.
pub struct Header {
    pub kind: GeometryKind,
    pub dimension: Dimension,
    pub little: bool,
}

/// The header at `at`: a byte-order mark and a type code. Where a kind or a
/// dimensionality is expected, the header must name it.
pub open spec fn read_header(
    bytes: Seq<u8>,
    at: int,
    kind: Option<GeometryKind>,
    dimension: Option<Dimension>,
) -> Read<Header> {
    if at + 5 > bytes.len() {
        Read::Failed(DecodeFault::Truncated, at)
    } else if bytes[at] > 1 {
        Read::Failed(DecodeFault::BadByteOrder, at)
    } else {
        let little = bytes[at] == 1;
        let code = u32_at(bytes, at + 1, little);
        match (kind_of_code(code), dimension_of_code(code)) {
            (Some(k), Some(d)) => if kind is Some && kind != Some(k) {
                Read::Failed(DecodeFault::UnexpectedMember, at + 1)
            } else if dimension is Some && dimension != Some(d) {
                Read::Failed(DecodeFault::MixedDimensions, at + 1)
            } else {
                Read::Done(Header { kind: k, dimension: d, little }, at + 5)
            },
            _ => Read::Failed(DecodeFault::UnknownGeometryType, at + 1),
        }
    }
}

/// The kind that every member of a composite of the given kind must have, if any.
pub open spec fn member_kind(kind: GeometryKind) -> Option<GeometryKind> {
    match kind {
        GeometryKind::MultiPoint => Some(GeometryKind::Point),
        GeometryKind::MultiLineString => Some(GeometryKind::LineString),
        GeometryKind::MultiPolygon => Some(GeometryKind::Polygon),
        _ => None,
    }
}

/// The geometry at `at`: its header and then, by its kind, one coordinate,
/// a count and as many coordinates, a count and as many rings, or a count
/// and as many member geometries, each with a header of its own.
pub open spec fn read_geometry(
    bytes: Seq<u8>,
    at: int,
    kind: Option<GeometryKind>,
    dimension: Option<Dimension>,
) -> Read<Shape>
    decreases bytes.len() - at, 0nat, 0nat,
{
    match read_header(bytes, at, kind, dimension) {
        Read::Done(header, body) => match header.kind {
            GeometryKind::Point => match read_coordinates(
                bytes,
                body,
                1,
                header.little,
                header.dimension,
            ) {
                Read::Done(coordinates, end) => Read::Done(Shape::Point(coordinates[0]), end),
                Read::Failed(fault, offset) => Read::Failed(fault, offset),
            },
            GeometryKind::LineString => match read_count(bytes, body, header.little) {
                Read::Done(n, start) => match read_coordinates(
                    bytes,
                    start,
                    n,
                    header.little,
                    header.dimension,
                ) {
                    Read::Done(coordinates, end) => Read::Done(
                        Shape::LineString(coordinates),
                        end,
                    ),
                    Read::Failed(fault, offset) => Read::Failed(fault, offset),
                },
                Read::Failed(fault, offset) => Read::Failed(fault, offset),
            },
            GeometryKind::Polygon => match read_count(bytes, body, header.little) {
                Read::Done(n, start) => match read_rings(
                    bytes,
                    start,
                    n,
                    header.little,
                    header.dimension,
                ) {
                    Read::Done(rings, end) => Read::Done(Shape::Polygon(rings), end),
                    Read::Failed(fault, offset) => Read::Failed(fault, offset),
                },
                Read::Failed(fault, offset) => Read::Failed(fault, offset),
            },
            _ => match read_count(bytes, body, header.little) {
                Read::Done(n, start) => match read_members(
                    bytes,
                    start,
                    n,
                    member_kind(header.kind),
                    header.dimension,
                ) {
                    Read::Done(members, end) => Read::Done(
                        Shape::Multi(header.kind, members),
                        end,
                    ),
                    Read::Failed(fault, offset) => Read::Failed(fault, offset),
                },
                Read::Failed(fault, offset) => Read::Failed(fault, offset),
            },
        },
        Read::Failed(fault, offset) => Read::Failed(fault, offset),
    }
}

/// The `count` member geometries at `at`, each of the expected kind, if one
/// is expected, and of the expected dimensionality.
pub open spec fn read_members(
    bytes: Seq<u8>,
    at: int,
    count: nat,
    kind: Option<GeometryKind>,
    dimension: Dimension,
) -> Read<Seq<Shape>>
    decreases bytes.len() - at, 1nat, count,
{
    if count == 0 {
        Read::Done(Seq::empty(), at)
    } else {
        match read_geometry(bytes, at, kind, Some(dimension)) {
            Read::Done(member, next) => if at <= next <= bytes.len() {
                match read_members(bytes, next, (count - 1) as nat, kind, dimension) {
                    Read::Done(rest, end) => Read::Done(seq![member] + rest, end),
                    Read::Failed(fault, offset) => Read::Failed(fault, offset),
                }
            } else {
                Read::Failed(DecodeFault::Truncated, at)
            },
            Read::Failed(fault, offset) => Read::Failed(fault, offset),
        }
    }
}

/// The number of bytes of the envelope that the header flags announce.
pub open spec fn envelope_size(flags: u8) -> Option<int> {
    let code = (flags / 2) % 8;
    if code == 0 {
        Some(0)
    } else if code == 1 {
        Some(32)
    } else if code == 2 || code == 3 {
        Some(48)
    } else if code == 4 {
        Some(64)
    } else {
        None
    }
}

/// What a GeoPackage geometry blob holds besides the geometry.
pub struct Blob {
    pub shape: Shape,
    pub dimension: Dimension,
    pub srid: Option<i32>,
}

/// The dimensionality that the header of the geometry at `at` declares.
pub open spec fn declared_dimension(bytes: Seq<u8>, at: int) -> Dimension {
    match read_header(bytes, at, None, None) {
        Read::Done(header, _) => header.dimension,
        Read::Failed(_, _) => Dimension::Xy,
    }
}

/// The GeoPackage geometry blob at `at`: the magic bytes `GP`, the version,
/// the flags (byte order of the header, envelope layout, whether the type is
/// extended), the identifier of the spatial reference system, the envelope,
/// and the geometry in well-known binary.
#[verifier::opaque]
pub open spec fn read_blob(bytes: Seq<u8>, at: int) -> Read<Blob> {
    if at + 8 > bytes.len() {
        Read::Failed(DecodeFault::Truncated, at)
    } else if bytes[at] != 0x47 || bytes[at + 1] != 0x50 {
        Read::Failed(DecodeFault::BadMagic, at)
    } else if bytes[at + 2] != 0 {
        Read::Failed(DecodeFault::UnsupportedVersion, at + 2)
    } else {
        let flags = bytes[at + 3];
        match envelope_size(flags) {
            Some(size) => if (flags / 32) % 2 == 1 {
                Read::Failed(DecodeFault::BadFlags, at + 3)
            } else if at + 8 + size > bytes.len() {
                Read::Failed(DecodeFault::Truncated, at + 8)
            } else {
                let srid = signed(u32_at(bytes, at + 4, flags % 2 == 1)) as i32;
                match read_geometry(bytes, at + 8 + size, None, None) {
                    Read::Done(shape, end) => Read::Done(
                        Blob {
                            shape,
                            dimension: declared_dimension(bytes, at + 8 + size),
                            srid: Some(srid),
                        },
                        end,
                    ),
                    Read::Failed(fault, offset) => Read::Failed(fault, offset),
                }
            },
            None => Read::Failed(DecodeFault::BadFlags, at + 3),
        }
    }
}

/// What a GeoPackage geometry blob has to say: the canonical calls of its
/// geometry, or nothing but the fault of a malformed blob.
pub open spec fn blob_walk(bytes: Seq<u8>, at: int) -> Walk {
    match read_blob(bytes, at) {
        Read::Done(blob, _) => Walk::of(blob.shape.events(blob.dimension, blob.srid)),
        Read::Failed(fault, offset) => Walk::failing(
            ErrorModel::Decode { fault, offset: offset as usize },
        ),
    }
}

/// Coordinates that were read have the dimensionality they were read under.
pub proof fn lemma_read_coordinates(
    bytes: Seq<u8>,
    at: int,
    count: nat,
    little: bool,
    dimension: Dimension,
)
    ensures
        read_coordinates(bytes, at, count, little, dimension) matches Read::Done(coordinates, end)
            ==> all_of_dimension(coordinates, dimension) && at <= end && (at <= bytes.len()
            ==> end <= bytes.len()),
    decreases count,
{
    if count > 0 {
        lemma_read_coordinates(
            bytes,
            at + coordinate_size(dimension),
            (count - 1) as nat,
            little,
            dimension,
        );
        let read = read_coordinates(bytes, at, count, little, dimension);
        if read is Done {
            let c = coordinate_at(bytes, at, little, dimension);
            assert(c.dimension() == dimension);
            let rest = read_coordinates(
                bytes,
                at + coordinate_size(dimension),
                (count - 1) as nat,
                little,
                dimension,
            )->Done_0;
            assert forall|i: int| 0 <= i < read->Done_0.len() implies (#[trigger] read->Done_0[i]).dimension()
                == dimension by {
                if i > 0 {
                    assert(read->Done_0[i] == rest[i - 1]);
                }
            }
        }
    }
}

/// Rings that were read have the dimensionality they were read under.
pub proof fn lemma_read_rings(
    bytes: Seq<u8>,
    at: int,
    count: nat,
    little: bool,
    dimension: Dimension,
)
    ensures
        read_rings(bytes, at, count, little, dimension) matches Read::Done(rings, end)
            ==> Shape::Polygon(rings).uniform(dimension) && at <= end && (at <= bytes.len()
            ==> end <= bytes.len()),
    decreases count,
{
    let read = read_rings(bytes, at, count, little, dimension);
    if count > 0 && read is Done {
        let first = read_ring(bytes, at, little, dimension);
        lemma_read_coordinates(
            bytes,
            read_count(bytes, at, little)->Done_1,
            read_count(bytes, at, little)->Done_0,
            little,
            dimension,
        );
        lemma_read_rings(bytes, first->Done_1, (count - 1) as nat, little, dimension);
        let rest = read_rings(bytes, first->Done_1, (count - 1) as nat, little, dimension)->Done_0;
        assert(Shape::Polygon(rest).uniform(dimension));
        assert forall|i: int| 0 <= i < read->Done_0.len() implies all_of_dimension(
            #[trigger] read->Done_0[i],
            dimension,
        ) by {
            if i > 0 {
                assert(read->Done_0[i] == rest[i - 1]);
                let tail = Shape::Polygon(rest);
                assert(tail.uniform(dimension));
                assert(0 <= i - 1 < tail->Polygon_0.len());
                assert(all_of_dimension(tail->Polygon_0[i - 1], dimension));
            } else {
                assert(read->Done_0[0] == first->Done_0);
                assert(all_of_dimension(first->Done_0, dimension));
            }
        }
    }
}

/// A geometry that was read is of the kind and dimensionality that its
/// header names, every one of its coordinates has that dimensionality, and
/// every one of its composite nodes admits its members.
pub proof fn lemma_read_geometry(
    bytes: Seq<u8>,
    at: int,
    kind: Option<GeometryKind>,
    dimension: Option<Dimension>,
)
    ensures
        read_geometry(bytes, at, kind, dimension) matches Read::Done(shape, end) ==> {
            &&& read_header(bytes, at, kind, dimension) matches Read::Done(header, _)
            &&& at < end <= bytes.len()
            &&& shape.kind() == header.kind
            &&& shape.well_kinded()
            &&& shape.uniform(header.dimension)
            &&& kind is Some ==> kind == Some(header.kind)
            &&& dimension is Some ==> dimension == Some(header.dimension)
        },
    decreases bytes.len() - at, 0nat, 0nat,
{
    let read = read_geometry(bytes, at, kind, dimension);
    if read is Done {
        let header = read_header(bytes, at, kind, dimension)->Done_0;
        let body = at + 5;
        if header.kind is Point {
            lemma_read_coordinates(bytes, body, 1, header.little, header.dimension);
        } else {
            let n = read_count(bytes, body, header.little)->Done_0;
            let start = body + 4;
            if header.kind is LineString {
                lemma_read_coordinates(bytes, start, n, header.little, header.dimension);
            } else if header.kind is Polygon {
                lemma_read_rings(bytes, start, n, header.little, header.dimension);
            } else {
                lemma_read_members(bytes, start, n, member_kind(header.kind), header.dimension);
            }
        }
    }
}

/// Members that were read are of the expected kind, if one is expected, and
/// each is as [`lemma_read_geometry`] says.
pub proof fn lemma_read_members(
    bytes: Seq<u8>,
    at: int,
    count: nat,
    kind: Option<GeometryKind>,
    dimension: Dimension,
)
    ensures
        read_members(bytes, at, count, kind, dimension) matches Read::Done(members, end) ==> {
            &&& at <= end
            &&& at <= bytes.len() ==> end <= bytes.len()
            &&& forall|i: int|
                0 <= i < members.len() ==> {
                    &&& (#[trigger] members[i]).well_kinded()
                    &&& members[i].uniform(dimension)
                    &&& kind is Some ==> kind == Some(members[i].kind())
                }
        },
    decreases bytes.len() - at, 1nat, count,
{
    let read = read_members(bytes, at, count, kind, dimension);
    if count > 0 && read is Done {
        let first = read_geometry(bytes, at, kind, Some(dimension));
        lemma_read_geometry(bytes, at, kind, Some(dimension));
        lemma_read_members(bytes, first->Done_1, (count - 1) as nat, kind, dimension);
        let rest = read_members(bytes, first->Done_1, (count - 1) as nat, kind, dimension)->Done_0;
        assert forall|i: int| 0 <= i < read->Done_0.len() implies {
            &&& (#[trigger] read->Done_0[i]).well_kinded()
            &&& read->Done_0[i].uniform(dimension)
            &&& kind is Some ==> kind == Some(read->Done_0[i].kind())
        } by {
            if i > 0 {
                assert(read->Done_0[i] == rest[i - 1]);
            }
        }
    }
}

/// The geometry of a well-formed blob has, in all its coordinates, the
/// dimensionality that the blob declares, and every one of its composite
/// nodes admits its members; the blob is not empty and ends within the bytes.
pub proof fn lemma_read_blob(bytes: Seq<u8>, at: int)
    ensures
        read_blob(bytes, at) matches Read::Done(blob, end) ==> blob.shape.well_kinded()
            && blob.shape.uniform(blob.dimension) && at < end <= bytes.len(),
{
    reveal(read_blob);
    if read_blob(bytes, at) is Done {
        let size = envelope_size(bytes[at + 3])->Some_0;
        lemma_read_geometry(bytes, at + 8 + size, None, None);
    }
}

} // verus!
