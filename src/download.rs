//! What the responses of the registration site say.

use vstd::prelude::*;

use crate::text::{contains, contains_text};

verus! {

/// What `String::from_utf8` makes of bytes: their text where they are valid UTF-8.
pub uninterp spec fn utf8_text(bytes: Seq<u8>) -> Option<Seq<char>>;

/// Relies on `String::from_utf8`: the text that the bytes encode, where they are valid UTF-8;
/// the result depends on the bytes alone.
#[verifier::external_body]
fn decode_utf8(bytes: Vec<u8>) -> (r: Option<String>)
    ensures
        match r {
            Some(s) => utf8_text(bytes@) == Some(s@),
            None => utf8_text(bytes@) is None,
        },
{
    String::from_utf8(bytes).ok()
}

pub open spec fn refusal_message() -> Seq<char> {
    "You are not authorized to perform this action"@
}

/// Whether a downloaded body is the file asked for rather than the site's refusal page: a body
/// that is not text is taken as the file.
pub fn is_authorized(body: Vec<u8>) -> (r: bool)
    ensures
        r == match utf8_text(body@) {
            Some(text) => !contains_text(text, refusal_message()),
            None => true,
        },
{
    match decode_utf8(body) {
        Some(text) => !contains(text.as_str(), "You are not authorized to perform this action"),
        None => true,
    }
}

/// Whether the page after a sign-in says that the user is signed in.
pub fn is_signed_in(page: &str) -> (r: bool)
    ensures
        r == (contains_text(page@, "Signed in successfully"@) || contains_text(
            page@,
            "You are already signed in"@,
        )),
{
    contains(page, "Signed in successfully") || contains(page, "You are already signed in")
}

} // verus!
