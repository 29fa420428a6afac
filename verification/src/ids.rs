//! Identifiers: UUIDs held as the 128-bit numbers that they are.

use vstd::prelude::*;

verus! {

/// A UUID as a plain number.
pub type Uuid = u128;

/// The id that a text is read as, for every form that `uuid::Uuid::parse_str` takes.
pub uninterp spec fn uuid_read(text: Seq<char>) -> Option<u128>;

/// The lower-case hexadecimal digit of a value below sixteen.
pub open spec fn hex_digit(v: int) -> char {
    if v < 10 {
        (48 + v) as char
    } else {
        (87 + v) as char
    }
}

/// Sixteen to the power `n`.
pub open spec fn pow16(n: nat) -> nat
    decreases n,
{
    if n == 0 {
        1
    } else {
        16 * pow16((n - 1) as nat)
    }
}

/// The hyphenated form of an id: 32 digits in groups of 8, 4, 4, 4 and 12.
pub open spec fn uuid_text(id: u128) -> Seq<char> {
    Seq::new(
        36,
        |i: int|
            if i == 8 || i == 13 || i == 18 || i == 23 {
                '-'
            } else {
                let before = i - (if i > 23 {
                    4int
                } else if i > 18 {
                    3
                } else if i > 13 {
                    2
                } else if i > 8 {
                    1
                } else {
                    0
                });
                hex_digit((id as nat / pow16((31 - before) as nat) % 16) as int)
            },
    )
}

/// `uuid::Uuid::parse_str`: reads an id, or nothing where the text is none. Which texts are
/// read is left to the name `uuid_read`.
#[verifier::external_body]
pub(crate) fn parse_uuid(text: &str) -> (r: Option<Uuid>)
    ensures
        r == uuid_read(text@),
{
    match uuid::Uuid::parse_str(text) {
        Ok(id) => Some(id.as_u128()),
        Err(_) => None,
    }
}

/// `uuid::Uuid`'s `Display`: the hyphenated lower-case form, which reads back as the same id.
#[verifier::external_body]
pub(crate) fn format_uuid(id: Uuid) -> (r: String)
    ensures
        r@ == uuid_text(id),
        uuid_read(r@) == Some(id),
{
    uuid::Uuid::from_u128(id).to_string()
}

/// `uuid::Uuid::new_v4`: a random id. Nothing is claimed of its value.
#[verifier::external_body]
pub(crate) fn random_uuid() -> (r: Uuid) {
    uuid::Uuid::new_v4().as_u128()
}

/// Reads an id, or nothing where the text is none.
pub fn read_id(text: &str) -> (r: Option<Uuid>)
    ensures
        r == uuid_read(text@),
{
    parse_uuid(text)
}

/// Writes an id in its hyphenated form, from which it is read again.
pub fn write_id(id: Uuid) -> (r: String)
    ensures
        r@ == uuid_text(id),
        uuid_read(r@) == Some(id),
{
    format_uuid(id)
}

} // verus!
