//! Errors of image construction.
use vstd::prelude::*;

verus! {

/// Declares `std::io::Error`, which archive reading reports and errors carry.
#[verifier::external_type_specification]
#[verifier::external_body]
pub struct ExIoError(std::io::Error);

/// An error produced while resolving files or constructing an OCI image.
#[derive(Debug)]
pub enum BuildError {
    /// A filesystem or archive operation failed.
    Io(std::io::Error),
    /// An image definition is invalid.
    Invalid(String),
    /// An image uses an unsupported feature.
    Unsupported(String),
}

} // verus!
