use vstd::prelude::*;

verus! {

/// Typed failures of parsing, fitting and querying.
///
/// Every error is a deterministic function of the input data; none is
/// retried and none is silently swallowed.
#[derive(Debug)]
pub enum Error {
    /// A cell could not be read as an unsigned decimal number; carries the
    /// offending token's bytes.
    InvalidCell(Vec<u8>),
    /// A row's cell count disagrees with the first row's.
    RaggedMatrix,
    /// `fit` was called with feature and label matrices of differing row
    /// counts.
    MismatchedRecordCount,
    /// The label matrix contains a value other than 0 or 1.
    NonBinaryLabel,
    /// The query matrix's column count disagrees with the fitted model's
    /// feature count.
    MismatchedFeatureCount,
}

} // verus!
