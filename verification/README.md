# girsa

The shared library behind Girsa, the library of sefarim, and Ksav, the pen:
the pieces where the two applications have to agree, each stated as a
contract and proved with Verus.

| Module | What it holds |
|---|---|
| `text` | Characters, splitting, trimming, decimal numbers: the vocabulary the contracts are written in |
| `hebrew` | Normalisation (nikud, teamim, final letters, gershayim), tokens with their spans, prefixes, ktiv male and chaser, abbreviations, and the ladder of variants |
| `refs` | Hebrew numerals, dafim, addresses, canonical refs, the lexicon of titles, the resolver, the redirect table |
| `cite` | A ref printed as a citation, in three styles |
| `source` | The Source Packet and its schema handshake |
| `ksav` | Ksav markup written, escaped, scanned for the citations it stores, retargeted, and read back into blocks |
| `post` | The loopback between the applications: the request on the wire, how an answer is judged, presence, the desk's refusals, the token, and `girsa://` links |
| `alive` | Whether a process id is still held, from the operating system's answer |

`app/` is the part that touches the machine: JSON on the wire, the endpoint
file, the sockets, and the existence probe. `tests/` runs the library on
concrete values.

Among the laws proved in `src/`: normalising twice is normalising once; a
Hebrew numeral and a daf read back as the number they print; escaped text
reads back as the text; what a footnote citation writes, the citation scan
reads back; a citation printed in any style resolves to the ref it was
printed from, wherever each of its levels, printed, reads as that level; a
percent-encoded link decodes to the text it carries; a redirect
table survives being written out as rows; following a ref never lists a place
twice; a spelling taught to the lexicon finds its work. A Ksav document is
read into exactly the blocks that a reading of its characters, written out
as spec functions in `ksav::read`, gives, and its plain text is those blocks
line by line.

Keyed collections are held as vectors with their invariant stated, not as
`BTreeMap`, `HashMap` or `BTreeSet`: the redirect table is a `Vec` of
entries sorted by key with no key twice, the lexicon's spelling index a
`Vec` of entries with distinct keys whose indices all point at works, the
abbreviation index a `Vec` searched by normal form, and the section words a
fixed array. All of them are keyed by text. The keyed std collections were
not tried in this crate: vstd specifies them through the keys' views, and a
`String` key gives a caller no proved fact about a lookup, so each
contract here is written over a view of the vector instead: a `Map` for
the redirect table and the lexicon, the rows themselves for the
abbreviations.
