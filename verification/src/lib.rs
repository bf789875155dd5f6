//! The shared library behind Girsa, the library of sefarim, and Ksav, the
//! pen: Hebrew text, references, citations, source packets, Ksav markup, the
//! post between the two applications, and whether a process is still there.

pub mod alive;
pub mod cite;
pub mod hebrew;
pub mod ksav;
pub mod post;
pub mod refs;
pub mod source;
pub mod text;
