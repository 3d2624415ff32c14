use vstd::prelude::*;

verus! {

/// Errors of URN parsing, building and percent-coding.
#[derive(Debug, Clone, Copy, PartialEq, Eq, Structural)]
pub enum Error {
    /// The scheme is not `urn:` (in any case).
    InvalidScheme,
    /// The namespace identifier is malformed.
    InvalidNid,
    /// The namespace-specific string is malformed or empty.
    InvalidNss,
    /// The r-component is malformed or empty.
    InvalidRComponent,
    /// The q-component is malformed or empty.
    InvalidQComponent,
    /// The f-component is malformed.
    InvalidFComponent,
}

/// Result type of this crate.
pub type Result<T> = core::result::Result<T, Error>;

} // verus!
