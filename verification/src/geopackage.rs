//! GeoPackage conversions.
use vstd::prelude::*;
use crate::builder::build_geometry;
use crate::builder_model::{lemma_run_shape, BuilderModel};
use crate::datasource::GeozeroDatasourceReader;
use crate::error::{description_text, ErrorModel, GeozeroError};
use crate::event::{
    delivered, lemma_delivered_nothing, lemma_delivered_one, lemma_delivered_step, Event, Walk,
};
use crate::geometry::Geometry;
use crate::machine::run;
use crate::processor::{walked, FeatureProcessor};
use crate::wkb::{blob_end, process_gpkg_geom, Cursor, GpkgWkb};
use crate::wkb_model::{blob_walk, lemma_read_blob, read_blob, Read};

verus! {

impl Geometry {
    /// Decodes the value of a database column that holds a GeoPackage
    /// geometry blob.
    ///
    /// A well-formed blob decodes into the geometry that it encodes. Any
    /// failure is surfaced as a column-decode error that carries the
    /// description of the underlying error.
    pub fn decode(blob: &[u8]) -> (r: Result<Geometry, GeozeroError>)
        ensures
            match read_blob(blob@, 0) {
                Read::Done(value, _) => r matches Ok(g) && g@ == value.shape,
                Read::Failed(fault, offset) => r matches Err(e) && e@ == (ErrorModel::ColumnDecode {
                    message: description_text(
                        ErrorModel::Decode { fault, offset: offset as usize },
                    ),
                }),
            },
    {
        let source = GpkgWkb(blob);
        proof {
            let read = read_blob(blob@, 0);
            lemma_read_blob(blob@, 0);
            if read is Done {
                let value = read->Done_0;
                lemma_run_shape(
                    BuilderModel::initial(),
                    value.shape,
                    value.dimension,
                    value.srid,
                );
            } else {
                assert(run(BuilderModel::initial(), Seq::empty()) == Some(
                    BuilderModel::initial(),
                ));
            }
        }
        match build_geometry(&source) {
            Ok(g) => Ok(g),
            Err(e) => Err(GeozeroError::ColumnDecode { message: e.description() }),
        }
    }
}

/// What the blob at `at` has to say as the feature with the given ordinal.
pub open spec fn blob_feature_walk(bytes: Seq<u8>, at: int, index: nat) -> Walk {
    Walk::of(seq![Event::FeatureBegin(index as u64)]).followed_by(
        blob_walk(bytes, at).followed_by(Walk::of(seq![Event::FeatureEnd(index as u64)])),
    )
}

/// What the blobs from `at` on have to say, each as the feature with the
/// next ordinal, and then the closing bracket of the dataset. Nothing
/// follows a malformed blob.
pub open spec fn blobs_walk(bytes: Seq<u8>, at: int, index: nat) -> Walk
    decreases bytes.len() - at,
{
    if at < 0 || at >= bytes.len() {
        Walk::of(seq![Event::DatasetEnd])
    } else {
        blob_feature_walk(bytes, at, index).followed_by(
            if at < blob_end(bytes, at) <= bytes.len() {
                blobs_walk(bytes, blob_end(bytes, at), index + 1)
            } else {
                Walk::of(Seq::empty())
            },
        )
    }
}

/// Walks the blob under the cursor into `processor` as one feature.
fn read_feature<P: FeatureProcessor>(raw: &mut Cursor<'_>, index: u64, processor: &mut P) -> (r:
    Result<(), GeozeroError>)
    requires
        old(raw).wf(),
        old(processor).wf(),
    ensures
        walked(
            *old(processor),
            *final(processor),
            blob_feature_walk(old(raw).data(), old(raw).offset(), index as nat),
            r,
        ),
        final(raw).wf(),
        final(raw).data() == old(raw).data(),
        r is Ok ==> final(raw).offset() == blob_end(old(raw).data(), old(raw).offset())
            && final(raw).offset() > old(raw).offset(),
{
    let ghost start = processor.calls();
    let ghost nothing = Walk::of(Seq::<Event>::empty());
    let ghost w1 = Walk::of(seq![Event::FeatureBegin(index)]);
    let ghost w2 = blob_walk(raw.data(), raw.offset());
    let ghost w3 = Walk::of(seq![Event::FeatureEnd(index)]);
    proof {
        lemma_delivered_nothing(start);
        assert(nothing.followed_by(w1.followed_by(w2.followed_by(w3))) == w1.followed_by(
            w2.followed_by(w3),
        )) by {
            assert(Seq::<Event>::empty() + w1.followed_by(w2.followed_by(w3)).events
                =~= w1.followed_by(w2.followed_by(w3)).events);
        }
    }
    let r = processor.feature_begin(index);
    proof {
        lemma_delivered_one(start, Event::FeatureBegin(index), r);
        lemma_delivered_step(start, nothing, start, w1, processor.calls(), r, w2.followed_by(w3));
    }
    if r.is_err() {
        return r;
    }
    let ghost d1 = nothing.followed_by(w1);
    let ghost mid = processor.calls();
    let r = process_gpkg_geom(raw, processor);
    proof {
        lemma_delivered_step(start, d1, mid, w2, processor.calls(), r, w3);
    }
    if r.is_err() {
        return r;
    }
    let ghost d2 = d1.followed_by(w2);
    let ghost mid = processor.calls();
    let r = processor.feature_end(index);
    proof {
        lemma_delivered_one(mid, Event::FeatureEnd(index), r);
        lemma_delivered_step(start, d2, mid, w3, processor.calls(), r, nothing);
        assert(w3.followed_by(nothing) == w3) by {
            assert(w3.events + Seq::<Event>::empty() =~= w3.events);
        }
        assert(d2.followed_by(w3).followed_by(nothing) == d2.followed_by(w3)) by {
            assert(d2.followed_by(w3).events + Seq::<Event>::empty() =~= d2.followed_by(
                w3,
            ).events);
        }
    }
    r
}

/// The format of GeoPackage geometry blobs that stand one behind the other:
/// an unnamed dataset in which every blob is the geometry of one feature.
pub struct GpkgBlobs;

impl GeozeroDatasourceReader for GpkgBlobs {
    open spec fn read_walk(bytes: Seq<u8>, properties: bool) -> Walk {
        Walk::of(seq![Event::DatasetBegin(None)]).followed_by(blobs_walk(bytes, 0, 0))
    }

    fn read<P: FeatureProcessor>(bytes: &[u8], processor: &mut P) -> (r: Result<(), GeozeroError>) {
        let ghost start = processor.calls();
        let ghost asks = processor.requests_properties();
        let ghost total = Self::read_walk(bytes@, asks);
        let ghost nothing = Walk::of(Seq::<Event>::empty());
        let ghost w0 = Walk::of(seq![Event::DatasetBegin(None)]);
        proof {
            lemma_delivered_nothing(start);
            assert(nothing.followed_by(total) == total) by {
                assert(Seq::<Event>::empty() + total.events =~= total.events);
            }
        }
        let r = processor.dataset_begin(None);
        proof {
            lemma_delivered_one(start, Event::DatasetBegin(None), r);
            lemma_delivered_step(
                start,
                nothing,
                start,
                w0,
                processor.calls(),
                r,
                blobs_walk(bytes@, 0, 0),
            );
        }
        if r.is_err() {
            return r;
        }
        let ghost mut done = nothing.followed_by(w0);
        let mut cursor = Cursor::new(bytes);
        let mut index: u64 = 0;
        while cursor.remaining() > 0
            invariant
                cursor.wf(),
                cursor.data() == bytes@,
                index <= cursor.offset(),
                processor.wf(),
                processor.requests_properties() == asks,
                asks == old(processor).requests_properties(),
                start == old(processor).calls(),
                total == Self::read_walk(bytes@, asks),
                total == done.followed_by(blobs_walk(bytes@, cursor.offset(), index as nat)),
                delivered(start, done, processor.calls(), Ok(())),
            decreases bytes@.len() - cursor.offset(),
        {
            let ghost at = cursor.offset();
            let ghost part = blob_feature_walk(bytes@, at, index as nat);
            let ghost rest = if at < blob_end(bytes@, at) <= bytes@.len() {
                blobs_walk(bytes@, blob_end(bytes@, at), (index + 1) as nat)
            } else {
                Walk::of(Seq::<Event>::empty())
            };
            let ghost mid = processor.calls();
            proof {
                assert(0 <= at < bytes@.len());
                assert(blobs_walk(bytes@, at, index as nat) == part.followed_by(rest));
            }
            let r = read_feature(&mut cursor, index, processor);
            proof {
                lemma_delivered_step(start, done, mid, part, processor.calls(), r, rest);
            }
            if r.is_err() {
                return r;
            }
            proof {
                done = done.followed_by(part);
            }
            let next = cursor.position();
            assert(index < next);
            index += 1;
        }
        let ghost mid = processor.calls();
        let r = processor.dataset_end();
        proof {
            let w9 = Walk::of(seq![Event::DatasetEnd]);
            lemma_delivered_one(mid, Event::DatasetEnd, r);
            lemma_delivered_step(start, done, mid, w9, processor.calls(), r, nothing);
            assert(w9.followed_by(nothing) == w9) by {
                assert(w9.events + Seq::<Event>::empty() =~= w9.events);
            }
            assert(done.followed_by(w9).followed_by(nothing) == done.followed_by(w9)) by {
                assert(done.followed_by(w9).events + Seq::<Event>::empty() =~= done.followed_by(
                    w9,
                ).events);
            }
        }
        r
    }
}

} // verus!
