//! Which representation a request asks for, read off its `Accept` header.

use core::str::Utf8Error;
use vstd::prelude::*;
use vstd::string::*;
use vstd::utf8::*;

verus! {

/// `core::str::Utf8Error`, what `from_utf8` fails with.
#[verifier::external_type_specification]
#[verifier::external_body]
pub struct ExUtf8Error(Utf8Error);

/// `core::str::from_utf8` succeeds exactly on well-formed UTF-8, and the
/// string slice it then gives has the very bytes it was given.
pub assume_specification[ core::str::from_utf8 ](v: &[u8]) -> (r: Result<&str, Utf8Error>)
    ensures
        r is Ok <==> valid_utf8(v@),
        r matches Ok(s) ==> s.spec_bytes() == v@,
;

/// `needle` stands somewhere in `haystack`, in one piece.
pub open spec fn occurs_in(needle: Seq<char>, haystack: Seq<char>) -> bool {
    exists|i: int|
        0 <= i <= haystack.len() - needle.len() && #[trigger] haystack.subrange(
            i,
            i + needle.len(),
        ) == needle
}

/// The text that `bytes` spell, and no text at all where they are not
/// well-formed UTF-8.
pub open spec fn text_of(bytes: Seq<u8>) -> Seq<char> {
    if valid_utf8(bytes) {
        decode_utf8(bytes)
    } else {
        Seq::empty()
    }
}

/// `str::contains` with a string slice for a pattern: whether the pattern
/// matches a sub-slice of the string. The claim is made over characters;
/// in well-formed UTF-8 a run of characters occurs where its bytes do.
#[verifier::external_body]
fn str_contains(haystack: &str, needle: &str) -> (found: bool)
    ensures
        found == occurs_in(needle@, haystack@),
{
    haystack.contains(needle)
}

/// Whether `pat` occurs in the text that `input` spells. Bytes that are no
/// UTF-8 count as the empty text.
pub fn match_str(input: &[u8], pat: &str) -> (found: bool)
    ensures
        found == occurs_in(pat@, text_of(input@)),
{
    let s: &str = match core::str::from_utf8(input) {
        Ok(v) => {
            proof {
                encode_utf8_decode_utf8(v@);
            }
            v
        },
        Err(_) => {
            proof {
                reveal_strlit("");
            }
            ""
        },
    };
    assert(s@ =~= text_of(input@));
    str_contains(s, pat)
}

/// What a response is to be written as.
#[derive(Debug, Clone, Copy, PartialEq, Eq, Structural)]
pub enum Representation {
    Html,
    Json,
    /// The request named neither, or had no `Accept` header at all.
    Unsupported,
}

/// The representation that an `Accept` header asks for. A header that
/// names both HTML and JSON gets HTML.
pub open spec fn asked_for(accept: Option<Seq<u8>>) -> Representation {
    match accept {
        Some(header) => if occurs_in("text/html"@, text_of(header)) {
            Representation::Html
        } else if occurs_in("application/json"@, text_of(header)) {
            Representation::Json
        } else {
            Representation::Unsupported
        },
        None => Representation::Unsupported,
    }
}

/// Picks the representation for a request from the bytes of its `Accept`
/// header, if it has one.
pub fn negotiate(accept: Option<&[u8]>) -> (r: Representation)
    ensures
        r == asked_for(
            match accept {
                Some(header) => Some(header@),
                None => None,
            },
        ),
{
    match accept {
        Some(header) => {
            if match_str(header, "text/html") {
                Representation::Html
            } else if match_str(header, "application/json") {
                Representation::Json
            } else {
                Representation::Unsupported
            }
        },
        None => Representation::Unsupported,
    }
}

} // verus!
