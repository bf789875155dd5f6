//! The Source Packet: the wire contract between Girsa and Ksav.
//!
//! ```jsonc
//! { "schema":  1,
//!   "ref":     "girsa:shulchan-arukh/orach-chayim/1:1",
//!   "display": "שו\"ע או\"ח סימן א' סעיף א'",
//!   "text":    "יתגבר כארי לעמוד בבוקר לעבודת בוראו…",
//!   "nikud":   false,
//!   "lang":    "he",
//!   "version": { "edition": "…", "license": "CC-BY", "provenance": "…" },
//!   "note":    "my margin note, if attached" }
//! ```
//!
//! The schema version is checked before anything else: a packet from a newer
//! Girsa must fail loudly at the handshake, not arrive half-read with
//! defaults filled in.
use vstd::prelude::*;

use crate::refs::reference::{ref_text, ref_value, Ref, RefErrorKind, RefView};
use crate::text::{chars_of, string_of};

verus! {

/// Wire-format version of the Source Packet. Bumped when a change would make
/// an older consumer misread a packet.
pub const PACKET_SCHEMA_VERSION: u32 = 1;

/// The oldest schema this build will read.
pub const MINIMUM_SCHEMA: u32 = 1;

/// The MIME type the layered clipboard puts the packet down under.
pub const CLIPBOARD_MIME: &'static str = "application/x-girsa-source+json";

/// The error `serde_json` reports for text that is not a packet.
#[verifier::external_type_specification]
#[verifier::external_body]
pub struct ExJsonError(serde_json::Error);

/// Which edition a quote came from, and under what terms.
#[derive(Debug, Clone, PartialEq, Eq)]
pub struct Version {
    /// The edition as the corpus names it.
    pub edition: String,
    /// The licence the text is under: `CC-BY`, `Public Domain`, `Unknown`.
    pub license: String,
    /// Where it came from.
    pub provenance: String,
}

impl Default for Version {
    fn default() -> (v: Version)
        ensures
            v.edition@ == Seq::<char>::empty(),
            v.license@ == Seq::<char>::empty(),
            v.provenance@ == Seq::<char>::empty(),
    {
        Version { edition: String::new(), license: String::new(), provenance: String::new() }
    }
}

/// Which characters of the quoted place this quote is: from `from` in the
/// first segment the ref names to `to`, exclusive, in the last, or to its
/// end when `to` is `None`.
#[derive(Debug, Clone, Copy, PartialEq, Eq, Structural)]
pub struct Range {
    /// Where the quote starts in the first place the ref names.
    pub from: usize,
    /// Where it ends in the last one, exclusive; `None` is to the end.
    pub to: Option<usize>,
}

impl Range {
    /// The whole of what the ref names. Not the same as no range at all,
    /// which is a packet written before ranges existed.
    pub fn all() -> (r: Range)
        ensures
            r == (Range { from: 0, to: None }),
    {
        Range { from: 0, to: None }
    }

    /// Whether this names the whole of what the ref names.
    pub fn is_all(&self) -> (b: bool)
        ensures
            b == (self.from == 0 && self.to is None),
    {
        self.from == 0 && self.to.is_none()
    }
}

/// A source, on its way from the library to the document.
#[derive(Debug, Clone, PartialEq, Eq)]
pub struct SourcePacket {
    /// Wire-format version, checked before anything else.
    pub schema: u32,
    /// The canonical ref, as its text. This is what the document stores.
    pub reference: String,
    /// How the citation is printed.
    pub display: String,
    /// The text itself.
    pub text: String,
    /// Whether `text` carries nikud.
    pub nikud: bool,
    /// `he`, `arc`, `en`.
    pub lang: String,
    /// Which edition, and under what terms.
    pub version: Version,
    /// A margin note travelling with the source, if one was attached.
    pub note: Option<String>,
    /// Which characters of the quoted place this is.
    pub range: Option<Range>,
}

/// What can go wrong at the handshake.
#[derive(Debug)]
pub enum PacketError {
    /// The packet came from a newer Girsa than this build understands.
    SchemaTooNew { found: u32, supported: u32 },
    /// The packet predates a change this build depends on.
    SchemaTooOld { found: u32, minimum: u32 },
    /// Not a Source Packet at all.
    Malformed(serde_json::Error),
    /// The ref is not a girsa ref.
    BadRef(String),
}

/// The verdict of the handshake on a schema version: too new, too old, or
/// readable.
pub open spec fn schema_verdict(schema: u32) -> Option<(bool, u32)> {
    if schema > PACKET_SCHEMA_VERSION {
        Some((true, schema))
    } else if schema < MINIMUM_SCHEMA {
        Some((false, schema))
    } else {
        None
    }
}

/// The handshake: a schema newer than this build, or older than it still
/// reads, is refused, naming both versions.
pub fn check_schema(schema: u32) -> (r: Result<(), PacketError>)
    ensures
        match r {
            Ok(()) => MINIMUM_SCHEMA <= schema <= PACKET_SCHEMA_VERSION,
            Err(PacketError::SchemaTooNew { found, supported }) => schema > PACKET_SCHEMA_VERSION
                && found == schema && supported == PACKET_SCHEMA_VERSION,
            Err(PacketError::SchemaTooOld { found, minimum }) => schema <= PACKET_SCHEMA_VERSION
                && schema < MINIMUM_SCHEMA && found == schema && minimum == MINIMUM_SCHEMA,
            Err(_) => false,
        },
{
    if schema > PACKET_SCHEMA_VERSION {
        return Err(PacketError::SchemaTooNew { found: schema, supported: PACKET_SCHEMA_VERSION });
    }
    if schema < MINIMUM_SCHEMA {
        return Err(PacketError::SchemaTooOld { found: schema, minimum: MINIMUM_SCHEMA });
    }
    Ok(())
}

impl SourcePacket {
    /// Build a packet for the current schema: the whole place selected, no
    /// nikud, Hebrew, no edition and no note.
    pub fn new(reference: &Ref, display: &str, text: &str) -> (p: SourcePacket)
        ensures
            p.schema == PACKET_SCHEMA_VERSION,
            p.reference@ == ref_text(reference@),
            p.display@ == display@,
            p.text@ == text@,
            !p.nikud,
            p.lang@ == seq!['h', 'e'],
            p.version.edition@.len() == 0 && p.version.license@.len() == 0
                && p.version.provenance@.len() == 0,
            p.note is None,
            p.range == Some(Range { from: 0, to: None }),
    {
        let lang = vec!['h', 'e'];
        SourcePacket {
            schema: PACKET_SCHEMA_VERSION,
            reference: reference.to_string(),
            display: string_of(chars_of(display).as_slice()),
            text: string_of(chars_of(text).as_slice()),
            nikud: false,
            lang: string_of(lang.as_slice()),
            version: Version::default(),
            note: None,
            range: Some(Range::all()),
        }
    }

    /// The same, for a quote of part of what the ref names.
    pub fn part(reference: &Ref, display: &str, text: &str, range: Range) -> (p: SourcePacket)
        ensures
            p.schema == PACKET_SCHEMA_VERSION,
            p.reference@ == ref_text(reference@),
            p.display@ == display@,
            p.text@ == text@,
            !p.nikud,
            p.lang@ == seq!['h', 'e'],
            p.version.edition@.len() == 0 && p.version.license@.len() == 0
                && p.version.provenance@.len() == 0,
            p.note is None,
            p.range == Some(range),
    {
        let mut p = SourcePacket::new(reference, display, text);
        p.range = Some(range);
        p
    }

    /// The ref, parsed: a ref that does not parse is reported rather than
    /// treated as a work with a strange name.
    pub fn reference(&self) -> (r: Result<Ref, PacketError>)
        ensures
            match r {
                Ok(x) => ref_value(self.reference@) == Ok::<RefView, RefErrorKind>(x@),
                Err(PacketError::BadRef(s)) => ref_value(self.reference@) is Err && s@
                    == self.reference@,
                Err(_) => false,
            },
    {
        match Ref::parse(self.reference.as_str()) {
            Ok(r) => Ok(r),
            Err(_) => Err(PacketError::BadRef(self.reference.clone())),
        }
    }
}

} // verus!
