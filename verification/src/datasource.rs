//! Sources of whole datasets.
use vstd::prelude::*;
use crate::error::GeozeroError;
use crate::event::Walk;
use crate::processor::{walked, FeatureProcessor};

verus! {

/// A source of features.
pub trait GeozeroDatasource {
    /// Everything this source has to say to a sink that asks for properties, or does not.
    spec fn dataset_walk(&self, properties: bool) -> Walk;

    /// Describes the features to `processor`.
    fn process<P: FeatureProcessor>(&mut self, processor: &mut P) -> (r: Result<(), GeozeroError>)
        requires
            old(processor).wf(),
        ensures
            walked(
                *old(processor),
                *final(processor),
                old(self).dataset_walk(old(processor).requests_properties()),
                r,
            ),
    ;
}

/// A format that is read from bytes.
pub trait GeozeroDatasourceReader {
    /// Everything the given bytes have to say, read as this format, to a
    /// sink that asks for properties, or does not.
    spec fn read_walk(bytes: Seq<u8>, properties: bool) -> Walk;

    /// Reads `bytes` and describes what they hold to `processor`.
    fn read<P: FeatureProcessor>(bytes: &[u8], processor: &mut P) -> (r: Result<(), GeozeroError>)
        requires
            old(processor).wf(),
        ensures
            walked(
                *old(processor),
                *final(processor),
                Self::read_walk(bytes@, old(processor).requests_properties()),
                r,
            ),
    ;
}

} // verus!
