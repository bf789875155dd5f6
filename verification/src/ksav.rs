//! Writing real Ksav markup, the document language, and reading it back.
//!
//! Every construct here is an existing command of Ksav's prelude:
//! `#ציטוט[…]` a block quote, `#מראה_מקום[…]` the citation as a footnote,
//! `#מקור[…]` the citation inline, `#הערת_עורך[…]` a note about the text,
//! and `#כותרת1[…]` to `#כותרת6[…]`.
//!
//! Escaping is the whole of the danger: a quote from a sefer routinely holds
//! `#`, `[`, `]` and `\`, and an unescaped `[` opens a content block that
//! never closes.

pub mod markup;
pub mod read;

pub use markup::{
    cited_in, editor_note, escape, heading, inline_citation, live_citation, mekor, quote_block,
    refs_in, retarget_with, retargeted, to_ksav, CitationPlacement, Cited, LINE_STARTS, MARKUP,
};
pub use read::{read, to_text, Block, NoteKind, ALIASES, PARAM_ALIASES};
