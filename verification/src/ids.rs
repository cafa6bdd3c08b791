//! Identifiers: 128-bit ids carried on rows and written back to objects as
//! the ingest tag, parsed from and rendered to their canonical text form by
//! the `uuid` crate.

use vstd::prelude::*;

verus! {

/// What `uuid::Uuid::try_parse` yields on a given text, as a 128-bit value:
/// the parse depends on the characters alone.
pub uninterp spec fn uuid_parsed(s: Seq<char>) -> Option<u128>;

/// The hyphenated text form of a 128-bit id: it depends on the value alone.
pub uninterp spec fn uuid_text(u: u128) -> Seq<char>;

/// Relies on `uuid::Uuid::try_parse` (and `as_u128`): accepts the textual
/// UUID forms and yields the 128-bit value; deterministic in its input.
#[verifier::external_body]
pub fn parse_uuid(s: &str) -> (r: Option<u128>)
    ensures
        r == uuid_parsed(s@),
{
    uuid::Uuid::try_parse(s).ok().map(|u| u.as_u128())
}

/// Relies on `uuid::Uuid::from_u128` and the `Display` of `uuid::Uuid`:
/// renders the lowercase hyphenated form; deterministic in its input.
#[verifier::external_body]
pub fn uuid_to_string(u: u128) -> (r: String)
    ensures
        r@ == uuid_text(u),
{
    uuid::Uuid::from_u128(u).to_string()
}

/// Relies on `uuid::Uuid::new_v4`: a freshly drawn random id, about which
/// nothing further can be promised. If the operating system's randomness
/// source fails, the call does not return.
#[verifier::external_body]
pub fn generate_uuid() -> (r: u128) {
    uuid::Uuid::new_v4().as_u128()
}

} // verus!
