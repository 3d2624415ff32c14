//! Parsing, building, comparing and percent-encoding of RFC 8141 / RFC 2141 URNs.
use vstd::prelude::*;

pub mod cow;
pub mod error;
pub mod namespace;
pub mod order;
pub mod percent;
pub mod syntax;
pub mod tables;
pub mod text;
pub mod urn;

pub use cow::TriCow;
pub use error::{Error, Result};
pub use namespace::{NgsiLd, NgsiLdParts, UrnNamespace, Uuid};
pub use urn::{Urn, UrnBuilder, UrnSlice};

verus! {

} // verus!
