//! What a CND says of the input it was built from, and when it was built.

use vstd::prelude::*;

use sha2::Digest;
use vstd::string::StringSliceAdditionalSpecFns;

use crate::fmt::{push_str, string_from_chars};

verus! {

/// The input artifact a CND is built from: its kind, the hash of its main
/// source, and the main file's project-relative path.
pub struct SourceInfo {
    pub type_: String,
    pub hash: String,
    pub uri: Option<String>,
}

/// The SHA-256 digest of `data`.
pub uninterp spec fn sha256(data: Seq<u8>) -> Seq<u8>;

/// Hashes `data` with `sha2::Sha256::digest`; trusted to give the 32-byte
/// digest, which depends on the data alone.
#[verifier::external_body]
fn sha256_digest(data: &[u8]) -> (r: Vec<u8>)
    ensures
        r@ == sha256(data@),
        r@.len() == 32,
{
    sha2::Sha256::digest(data).to_vec()
}

/// The lowercase hexadecimal digit of `d` (below 16).
pub open spec fn hex_digit(d: u8) -> char {
    seq!['0', '1', '2', '3', '4', '5', '6', '7', '8', '9', 'a', 'b', 'c', 'd', 'e', 'f'][d as int]
}

/// `data` in lowercase hexadecimal, two digits per byte.
pub open spec fn hex_lower(data: Seq<u8>) -> Seq<char>
    decreases data.len(),
{
    if data.len() == 0 {
        Seq::empty()
    } else {
        hex_lower(data.drop_last()) + seq![hex_digit(data.last() / 16), hex_digit(data.last() % 16)]
    }
}

/// Encodes `data` with `hex::encode`, which its documentation describes as
/// two lowercase hexadecimal digits per byte.
#[verifier::external_body]
fn hex_encode(data: &[u8]) -> (r: String)
    ensures
        r@ == hex_lower(data@),
{
    hex::encode(data)
}

/// The hash of a main source file's text: `sha256:` and the hexadecimal
/// SHA-256 digest of its UTF-8 bytes.
pub fn source_hash(text: &str) -> (r: String)
    ensures
        r@ == "sha256:"@ + hex_lower(sha256(text.spec_bytes())),
{
    let digest = sha256_digest(text.as_bytes());
    let hex = hex_encode(digest.as_slice());
    let mut out: Vec<char> = Vec::new();
    push_str(&mut out, "sha256:");
    push_str(&mut out, hex.as_str());
    string_from_chars(&out)
}

/// Describes the main source file, with text `text` at project-relative
/// path `path`: a Typst source, its hash, and its path.
pub fn source_info(text: &str, path: &str) -> (r: SourceInfo)
    ensures
        r.type_@ == "typst"@,
        r.hash@ == "sha256:"@ + hex_lower(sha256(text.spec_bytes())),
        r.uri matches Some(u) && u@ == path@,
{
    let mut kind: Vec<char> = Vec::new();
    push_str(&mut kind, "typst");
    let mut uri: Vec<char> = Vec::new();
    push_str(&mut uri, path);
    SourceInfo { type_: string_from_chars(&kind), hash: source_hash(text), uri: Some(string_from_chars(&uri)) }
}

/// The time of building, given the current UTC time as RFC 3339 text, or
/// the epoch when it could not be formatted.
pub fn built_at(formatted: Option<String>) -> (r: String)
    ensures
        match formatted {
            Some(s) => r == s,
            None => r@ == "1970-01-01T00:00:00Z"@,
        },
{
    match formatted {
        Some(s) => s,
        None => {
            let mut out: Vec<char> = Vec::new();
            push_str(&mut out, "1970-01-01T00:00:00Z");
            string_from_chars(&out)
        },
    }
}

/// Whether `c` is an ASCII decimal digit.
pub open spec fn is_ascii_digit(c: char) -> bool {
    '0' <= c <= '9'
}

/// Whether `s` is an RFC 3339 date-time in UTC as `time` writes one:
/// `YYYY-MM-DDTHH:MM:SS`, then, when the second has a fraction, a dot and
/// one to nine digits, then `Z`.
pub open spec fn rfc3339_utc(s: Seq<char>) -> bool {
    &&& 20 <= s.len() <= 30
    &&& forall|i: int|
        0 <= i < 19 && i != 4 && i != 7 && i != 10 && i != 13 && i != 16 ==> is_ascii_digit(#[trigger] s[i])
    &&& s[4] == '-' && s[7] == '-' && s[10] == 'T' && s[13] == ':' && s[16] == ':'
    &&& s[s.len() - 1] == 'Z'
    &&& s.len() == 20 || (s.len() >= 22 && s[19] == '.' && forall|i: int|
        20 <= i < s.len() - 1 ==> is_ascii_digit(#[trigger] s[i]))
}

/// The current UTC time from `time::OffsetDateTime::now_utc`, formatted as
/// RFC 3339; nothing when formatting fails. Trusted to give, when it gives
/// anything, text in the shape `time`'s RFC 3339 formatter writes for a UTC
/// offset; what time it is, nothing says.
#[verifier::external_body]
fn now_rfc3339() -> (r: Option<String>)
    ensures
        r matches Some(s) ==> rfc3339_utc(s@),
{
    time::OffsetDateTime::now_utc().format(&time::format_description::well_known::Rfc3339).ok()
}

/// The current UTC time as RFC 3339 text, or the epoch when it cannot be
/// formatted.
pub fn built_at_now() -> (r: String)
    ensures
        rfc3339_utc(r@),
{
    let now = now_rfc3339();
    let r = built_at(now);
    proof {
        if now is None {
            reveal_strlit("1970-01-01T00:00:00Z");
            assert(rfc3339_utc(r@));
        }
    }
    r
}

} // verus!
