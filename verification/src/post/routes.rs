//! Every path the loopback carries, named once.
//!
//! The seam is two servers, each serving paths the other calls. The
//! direction is in each name, so the errand Ksav sends when a document is
//! saved and the one Girsa sends to hand a document over cannot be read as
//! each other. The old shared name is kept on both sides, accepted and never
//! sent, so an old and a new build still pair.

pub mod girsa;
pub mod ksav;

use vstd::prelude::*;

verus! {

/// Answered by both applications, in both directions: are you there, and
/// which version. The one path that is not an errand.
pub const HEALTH: &'static str = "/health";

/// The pair that used to mean two things under one name: `.0` is what Girsa
/// serves, `.1` what Ksav serves.
pub const RENAMED: (&'static str, &'static str) = ("/document-saved", "/take-document");

} // verus!
