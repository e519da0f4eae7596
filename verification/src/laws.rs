//! What holds of every walk, whichever source and sink take part in it.
use vstd::prelude::*;
use vstd::utf8::{decode_utf8, encode_utf8};
use crate::dataset::Dataset;
use crate::error::{DecodeFault, ErrorModel, GeozeroError};
use crate::event::{accepted, delivered, Call, Coordinate, Dimension, Event, GeometryKind, Walk};
use crate::geometry::{coordinate_events, rings_events, Geometry, Shape};
use crate::machine::{lemma_run_concat, lemma_run_one, lemma_run_push};
use crate::svg::{document_walk, svg_outcome};
use crate::svg_model::{document_close, document_open, lemma_svg_shape, shape_svg, SvgModel};
use crate::walker::GeozeroGeometry;
use crate::wkb_model::{blob_walk, envelope_size, read_blob, Blob, Read};

verus! {

/// The rings of a polygon are described in stored order, each between its
/// two brackets: a polygon with an exterior ring and one hole is described
/// by the opening of its node, the exterior ring, the hole, and the closing
/// of its node; the hole never comes before the exterior.
pub proof fn lemma_polygon_rings_in_order(
    exterior: Seq<Coordinate>,
    hole: Seq<Coordinate>,
    dimension: Dimension,
    srid: Option<i32>,
)
    ensures
        Shape::Polygon(seq![exterior, hole]).events(dimension, srid)
            == seq![Event::GeometryBegin(GeometryKind::Polygon, dimension, srid), Event::RingBegin]
            + coordinate_events(exterior) + seq![Event::RingEnd, Event::RingBegin]
            + coordinate_events(hole) + seq![Event::RingEnd, Event::GeometryEnd],
{
    reveal_with_fuel(rings_events, 3);
    let rings = seq![exterior, hole];
    assert(rings.len() == 2 && rings[0] == exterior && rings[1] == hole);
    assert(Shape::Polygon(rings).events(dimension, srid) =~= seq![
        Event::GeometryBegin(GeometryKind::Polygon, dimension, srid),
        Event::RingBegin,
    ] + coordinate_events(exterior) + seq![Event::RingEnd, Event::RingBegin] + coordinate_events(
        hole,
    ) + seq![Event::RingEnd, Event::GeometryEnd]);
}

/// A malformed blob is silent: its walk fails with the fault of the blob,
/// and the sink has received no call.
pub proof fn lemma_malformed_blob_is_silent(
    bytes: Seq<u8>,
    at: int,
    before: Seq<Call>,
    after: Seq<Call>,
    r: Result<(), GeozeroError>,
)
    requires
        read_blob(bytes, at) is Failed,
        delivered(before, blob_walk(bytes, at), after, r),
    ensures
        after == before,
        r matches Err(e) && e@ == (ErrorModel::Decode {
            fault: read_blob(bytes, at)->Failed_0,
            offset: read_blob(bytes, at)->Failed_1 as usize,
        }),
{
    assert(before + accepted(Seq::<Event>::empty()) =~= before);
}

/// A blob that ends within its eight header bytes, or within the envelope
/// that its header announces, is malformed: it is truncated.
pub proof fn lemma_truncated_blob(bytes: Seq<u8>, at: int)
    requires
        0 <= at,
    ensures
        at + 8 > bytes.len() ==> read_blob(bytes, at) == Read::<Blob>::Failed(
            DecodeFault::Truncated,
            at,
        ),
        at + 8 <= bytes.len() && bytes[at] == 0x47 && bytes[at + 1] == 0x50 && bytes[at + 2] == 0
            && (bytes[at + 3] / 32) % 2 == 0 && envelope_size(bytes[at + 3]) is Some && at + 8
            + envelope_size(bytes[at + 3])->Some_0 > bytes.len() ==> read_blob(bytes, at)
            == Read::<Blob>::Failed(DecodeFault::Truncated, at + 8),
{
    reveal(read_blob);
}

/// A call that a sink rejects ends the walk at once: it is the last call
/// made, its error is the result of the walk, and every call before it is
/// the next of the walk in order and was accepted.
pub proof fn lemma_rejection_ends_walk(
    before: Seq<Call>,
    walk: Walk,
    after: Seq<Call>,
    r: Result<(), GeozeroError>,
    i: int,
)
    requires
        delivered(before, walk, after, r),
        before.len() <= i < after.len(),
        after[i].outcome is Err,
    ensures
        i == after.len() - 1,
        r == after[i].outcome,
        i - before.len() < walk.events.len(),
        forall|j: int|
            before.len() <= j <= i ==> (#[trigger] after[j]).event == walk.events[j
                - before.len()],
        forall|j: int| before.len() <= j < i ==> (#[trigger] after[j]).outcome is Ok,
{
    if after == before + accepted(walk.events) {
        assert(after[i] == accepted(walk.events)[i - before.len()]);
    } else {
        let e = r->Err_0;
        let k = after.len() - before.len() - 1;
        let done = accepted(walk.events.take(k));
        if i < after.len() - 1 {
            assert(after[i] == done[i - before.len()]);
        }
        assert forall|j: int| before.len() <= j <= i implies (#[trigger] after[j]).event
            == walk.events[j - before.len()] by {
            if j < i {
                assert(after[j] == done[j - before.len()]);
            }
        }
        assert forall|j: int| before.len() <= j < i implies (#[trigger] after[j]).outcome is Ok by {
            assert(after[j] == done[j - before.len()]);
        }
    }
}

/// The SVG of an in-memory geometry whose coordinates all have the
/// dimensionality that it declares: the conversion succeeds, and its text is
/// the markup of the geometry.
pub proof fn lemma_geometry_to_svg(g: Geometry, r: Result<String, GeozeroError>)
    requires
        g@.uniform(g@.dimension()),
        svg_outcome(g.walk(), r),
    ensures
        r matches Ok(text) && text@ == decode_utf8(shape_svg(g@, false)),
{
    let initial = SvgModel::initial(false);
    lemma_svg_shape(initial, g@, g@.dimension(), None);
    assert(initial.out + shape_svg(g@, false) =~= shape_svg(g@, false));
}

/// The SVG document of an in-memory geometry whose coordinates all have the
/// dimensionality that it declares: the conversion succeeds, and its text is
/// one unnamed group that holds, on a line of its own, the markup of the
/// geometry.
pub proof fn lemma_geometry_to_svg_document(g: Geometry, r: Result<String, GeozeroError>)
    requires
        g@.uniform(g@.dimension()),
        svg_outcome(document_walk(g.walk()), r),
    ensures
        r matches Ok(text) && text@ == decode_utf8(
            document_open(None) + encode_utf8("\n"@) + shape_svg(g@, false) + document_close(),
        ),
{
    let initial = SvgModel::initial(false);
    let shape = g@.events(g@.dimension(), None);
    let open = seq![Event::DatasetBegin(None)];
    let s1 = initial.wrote(document_open(None));
    let s2 = s1.wrote(encode_utf8("\n"@));
    let s3 = s2.wrote(shape_svg(g@, false));
    let s4 = s3.wrote(document_close());
    lemma_run_one(initial, Event::DatasetBegin(None));
    lemma_run_push(initial, open, Event::FeatureBegin(0));
    lemma_svg_shape(s2, g@, g@.dimension(), None);
    lemma_run_concat(initial, open.push(Event::FeatureBegin(0)), shape);
    let walked = open.push(Event::FeatureBegin(0)) + shape;
    lemma_run_push(initial, walked, Event::FeatureEnd(0));
    lemma_run_push(initial, walked.push(Event::FeatureEnd(0)), Event::DatasetEnd);
    assert(document_walk(g.walk()).events =~= walked.push(Event::FeatureEnd(0)).push(
        Event::DatasetEnd,
    ));
    assert(s4.out =~= document_open(None) + encode_utf8("\n"@) + shape_svg(g@, false)
        + document_close());
}

/// A dataset without features still has its two brackets: its walk is the
/// opening and the closing of the dataset, with no feature in between.
pub proof fn lemma_empty_dataset(dataset: Dataset, wanted: bool)
    requires
        dataset.features@.len() == 0,
    ensures
        dataset.walk(wanted) == Walk::of(
            seq![Event::DatasetBegin(dataset.title()), Event::DatasetEnd],
        ),
{
    let name = dataset.title();
    assert(seq![Event::DatasetBegin(name)] + seq![Event::DatasetEnd] =~= seq![
        Event::DatasetBegin(name),
        Event::DatasetEnd,
    ]);
}

/// The SVG of a dataset without features is a well-formed document with an
/// empty group: the conversion succeeds, and its text is the opening of the
/// document and its closing.
pub proof fn lemma_empty_dataset_to_svg(dataset: Dataset, r: Result<String, GeozeroError>)
    requires
        dataset.features@.len() == 0,
        svg_outcome(dataset.walk(false), r),
    ensures
        r matches Ok(text) && text@ == decode_utf8(
            document_open(dataset.title()) + document_close(),
        ),
{
    let name = dataset.title();
    let initial = SvgModel::initial(false);
    lemma_empty_dataset(dataset, false);
    lemma_run_one(initial, Event::DatasetBegin(name));
    lemma_run_push(initial, seq![Event::DatasetBegin(name)], Event::DatasetEnd);
    assert(seq![Event::DatasetBegin(name)].push(Event::DatasetEnd) =~= seq![
        Event::DatasetBegin(name),
        Event::DatasetEnd,
    ]);
    assert(initial.wrote(document_open(name)).wrote(document_close()).out =~= document_open(name)
        + document_close());
}

} // verus!
