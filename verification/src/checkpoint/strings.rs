//! The standard library's UTF-8 check and the messages of its errors.
use vstd::prelude::*;
use vstd::utf8::{encode_utf8, valid_utf8};

verus! {

#[verifier::external_type_specification]
#[verifier::external_body]
pub struct ExUtf8Error(std::str::Utf8Error);

/// `std::str::from_utf8`: succeeds exactly on well-formed UTF-8 (as vstd's
/// `valid_utf8` defines it), and then views the very same bytes as a `str`.
#[verifier::external_body]
pub(crate) fn str_from_utf8(bytes: &[u8]) -> (r: Result<&str, std::str::Utf8Error>)
    ensures
        r is Ok <==> valid_utf8(bytes@),
        r matches Ok(s) ==> encode_utf8(s@) == bytes@,
{
    std::str::from_utf8(bytes)
}

/// The `Display` text of a UTF-8 error (its message only; nothing is
/// stated of it).
#[verifier::external_body]
pub(crate) fn utf8_error_message(e: &std::str::Utf8Error) -> String {
    e.to_string()
}

/// The text that `format!("{:?}", s)` produces for a string: std's `Debug`
/// form of `s`, quoted and escaped.
pub uninterp spec fn debug_str_text(s: Seq<char>) -> Seq<char>;

/// `format!("{:?}", s)`: the `Debug` form of a string. Its text is named, as
/// a function of `s` alone, by `debug_str_text`.
#[verifier::external_body]
pub(crate) fn debug_str(s: &str) -> (r: String)
    ensures
        r@ == debug_str_text(s@),
{
    format!("{:?}", s)
}

} // verus!
