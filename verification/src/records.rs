//! The two records that pass between the phases.

use vstd::prelude::*;

verus! {

/// One occurrence of one window of a training line inside the validation
/// corpus: `(training_doc_id, line_num, corpus_position)`.
pub type RawMatch = (usize, usize, u64);

/// A validation document that a training line covers far enough:
/// `(validation_doc_id, training_doc_id, line_num)`.
pub type ContaminationRecord = (usize, usize, usize);

} // verus!
