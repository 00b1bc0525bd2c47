//! Byte strings read as text. Bencode strings are raw bytes; whether they
//! are text is for the caller to ask.

use vstd::prelude::*;
use vstd::string::StringSliceAdditionalSpecFns;
use vstd::utf8::valid_utf8;
use crate::model::Value;
use crate::value::BValue;

verus! {

/// The standard library's `core::str::from_utf8`, its error dropped.
///
/// Trusted, not proved: the call yields the text just when the bytes are
/// valid UTF-8, and the text is then made of those very bytes.
#[verifier::external_body]
fn utf8_text(bytes: &[u8]) -> (r: Option<&str>)
    ensures
        r is Some <==> valid_utf8(bytes@),
        r matches Some(text) ==> text.spec_bytes() == bytes@,
{
    core::str::from_utf8(bytes).ok()
}

impl BValue {
    /// The value as text, if it is a byte string and its bytes are valid
    /// UTF-8.
    pub fn as_text(&self) -> (r: Option<&str>)
        ensures
            match r {
                Some(text) => self@ == Value::Str(text.spec_bytes()) && valid_utf8(
                    text.spec_bytes(),
                ),
                None => !(self@ matches Value::Str(bytes) && valid_utf8(bytes)),
            },
    {
        match self {
            BValue::Str(bytes) => utf8_text(bytes.as_slice()),
            _ => None,
        }
    }
}

} // verus!
