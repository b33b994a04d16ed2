use vstd::prelude::*;

verus! {

#[verifier::external_type_specification]
#[verifier::external_body]
pub struct ExOid(git2::Oid);

#[verifier::external_type_specification]
#[verifier::external_body]
pub struct ExGitError(git2::Error);

/// An ASCII hexadecimal digit.
pub open spec fn is_hex_digit(c: char) -> bool {
    ('0' <= c && c <= '9') || ('a' <= c && c <= 'f') || ('A' <= c && c <= 'F')
}

/// Text that parses as an object id: one to forty hexadecimal digits.
pub open spec fn is_oid_text(s: Seq<char>) -> bool {
    1 <= s.len() <= 40 && forall|i: int| 0 <= i < s.len() ==> #[trigger] is_hex_digit(s[i])
}

/// Relies on git2's `Oid::from_str`, which hands the text to libgit2's
/// `git_oid_fromstrn`: that accepts one to forty hex digits and refuses
/// anything else.
#[verifier::external_body]
pub(crate) fn parse_oid(s: &str) -> (r: Result<git2::Oid, git2::Error>)
    ensures
        r.is_ok() == is_oid_text(s@),
{
    git2::Oid::from_str(s)
}

/// Relies on git2's `Error::message`: the text libgit2 gave for the error.
#[verifier::external_body]
pub(crate) fn git_error_message(e: &git2::Error) -> (r: String) {
    e.message().to_string()
}

/// The text that lossy UTF-8 decoding makes of a byte sequence.
pub uninterp spec fn lossy_text(b: Seq<u8>) -> Seq<char>;

/// Relies on std's `String::from_utf8_lossy`: valid UTF-8 decodes as it is;
/// anything else has each invalid sequence replaced by U+FFFD.
#[verifier::external_body]
pub(crate) fn decode_lossy(b: &Vec<u8>) -> (r: String)
    ensures
        r@ == lossy_text(b@),
        vstd::utf8::valid_utf8(b@) ==> r@ == vstd::utf8::decode_utf8(b@),
{
    String::from_utf8_lossy(b.as_slice()).into_owned()
}

/// Relies on chrono's `Utc::now` and `DateTime::timestamp`: the current time
/// in whole seconds since the epoch. Nothing is promised of its value.
#[verifier::external_body]
pub(crate) fn now_seconds() -> (r: i64) {
    chrono::Utc::now().timestamp()
}

} // verus!
