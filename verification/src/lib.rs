use vstd::prelude::*;

pub mod asciitext;
pub mod codec;
pub mod hashes;
pub mod proofsys;
pub mod dat;
pub mod digest;
pub mod registry;
pub mod service;
pub mod envelope;
pub mod ledger;
pub mod query;
pub mod timefmt;
pub mod b64;

verus! {

/// True of a character that may stand unescaped inside a JSON string:
/// printable ASCII other than the quote and the backslash. The canonical
/// encoding writes strings without escapes, so every token text field is
/// held to exactly these characters.
pub open spec fn json_safe_char(c: char) -> bool {
    ' ' <= c && c <= '~' && c != '"' && c != '\\'
}

/// True of a string all of whose characters are safe inside a JSON string.
pub open spec fn json_safe(s: Seq<char>) -> bool {
    forall|i: int| 0 <= i < s.len() ==> json_safe_char(s[i])
}

} // verus!
