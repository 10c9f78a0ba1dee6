//! Detection of train/validation contamination: substrings of a training
//! corpus are looked up in a suffix-array index of a validation corpus, and a
//! validation document counts as contaminated by a training line when the
//! matches of that line cover enough of it.

pub mod boundaries;
pub mod bytes;
pub mod codec;
pub mod collect;
pub mod coverage;
pub mod decide;
pub mod documents;
pub mod error;
pub mod groups;
pub mod intervals;
pub mod order;
pub mod pipeline;
pub mod records;
pub mod suffix_index;
pub mod threshold;
