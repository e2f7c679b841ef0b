use crate::config::Config;
use crate::data::mapping::{JsonMapping, OutputMapping};
use vstd::prelude::*;

pub mod json;
pub mod key;
pub mod mapping;
pub mod value;

verus! {

/// Everything the replacement of the values of a document works with.
pub struct UpdateStructureData<P> {
    /// Configuration
    pub config: Config<P>,
    /// Values that are replaced by a given value wherever they are found
    pub mapping: JsonMapping,
    /// Replacements made while processing, by path
    pub output_mapping: OutputMapping,
}

} // verus!
