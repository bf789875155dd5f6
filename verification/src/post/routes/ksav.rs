//! The paths Ksav serves, which is to say the ones Girsa calls.

use vstd::prelude::*;

verus! {

/// `{name, text}`: take this document.
pub const TAKE_DOCUMENT: &'static str = "/take-document";

/// What [`TAKE_DOCUMENT`] was called before the direction was in the name.
/// Accepted, never sent.
pub const LEGACY_DOCUMENT: &'static str = "/document";

/// `{…SourcePacket}`: put this source into the document being written.
pub const INSERT: &'static str = "/insert";

} // verus!
