//! The paths Girsa serves, which is to say the ones Ksav calls.

use vstd::prelude::*;

verus! {

/// `{path, name, forget}`: a document is saved at this path; put it in the
/// registry, or with `forget` take it out.
pub const DOCUMENT_SAVED: &'static str = "/document-saved";

/// What [`DOCUMENT_SAVED`] was called before the direction was in the name.
/// Accepted, never sent.
pub const LEGACY_DOCUMENT: &'static str = "/document";

/// Re-quote every citation in a document against the corpus as it stands,
/// one row per citation in document order.
pub const REFRESH: &'static str = "/refresh";

/// Which place a `girsa:` ref names, in words.
pub const WHERE_FROM: &'static str = "/where-from";

/// Turn the mareh mekomos in a stretch of text into real citations.
pub const LINKIFY: &'static str = "/linkify";

} // verus!
