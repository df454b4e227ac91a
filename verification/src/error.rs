//! Error types for the Kernelizer library.

use vstd::prelude::*;

verus! {

/// An I/O error from the standard library.
#[verifier::external_type_specification]
#[verifier::external_body]
pub struct ExIoError(std::io::Error);

/// Comprehensive error type for Kernelizer operations.
pub enum KernelizerError {
    /// I/O error occurred.
    Io(std::io::Error),
    /// Generic parsing error.
    ParseError,
}

} // verus!
