//! Serializers of measurements.

use crate::measurement::Measurement;
use vstd::prelude::*;

pub mod line;

verus! {

/// A serializer of measurements.
pub trait Serializer {
    /// Serializes `measurement` to a `String`.
    fn serialize(&self, measurement: &Measurement) -> (text: String);
}

} // verus!
