use vstd::prelude::*;

verus! {

/// The error taxonomy of the store.
///
/// - `InvalidConfig`: bad batch size or a source path that is not an existing
///   regular file; fatal at construction.
/// - `IoError`: a read or write failed; fatal for the operation attempted.
/// - `DecodeError`: a persisted batch does not match the expected binary
///   shape; the offending file is skipped, a load continues.
/// - `ProviderError`: an embedding call failed; that batch is skipped.
/// - `DimensionMismatch`: a query vector's length differs from the dataset's
///   dimensions; fatal for that query only.
/// - `NotFound`: no batch files were found, or the directory could not be
///   listed; fatal for the whole load.
#[derive(Clone, Copy, Debug, PartialEq, Eq, Structural)]
pub enum StoreError {
    InvalidConfig,
    IoError,
    DecodeError,
    ProviderError,
    DimensionMismatch,
    NotFound,
}

} // verus!
