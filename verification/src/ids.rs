//! Candidate and document identifiers: UUIDs, held as their 128-bit
//! values, made, written and read by the `uuid` crate.

use vstd::prelude::*;

use crate::text::digit_char;

verus! {

/// The lowercase hexadecimal digit for `d < 16`.
pub open spec fn hex_digit(d: nat) -> char {
    if d < 10 {
        digit_char(d)
    } else {
        ((87 + d) as u32) as char
    }
}

/// The last `n` hexadecimal digits of `v`, most significant first.
pub open spec fn hex_digits(v: nat, n: nat) -> Seq<char>
    decreases n,
{
    if n == 0 {
        seq![]
    } else {
        hex_digits(v / 16, (n - 1) as nat).push(hex_digit(v % 16))
    }
}

/// The hyphenated lowercase form of a UUID, 8-4-4-4-12 hexadecimal
/// digits, which is how `uuid::Uuid` displays itself.
pub open spec fn hyphenated(v: u128) -> Seq<char> {
    let h = hex_digits(v as nat, 32);
    h.subrange(0, 8) + seq!['-'] + h.subrange(8, 12) + seq!['-'] + h.subrange(12, 16) + seq!['-']
        + h.subrange(16, 20) + seq!['-'] + h.subrange(20, 32)
}

/// What `uuid::Uuid::parse_str` makes of `text`, as a 128-bit value: the
/// crate accepts its simple, hyphenated, URN and braced forms.
pub uninterp spec fn uuid_value(text: Seq<char>) -> Option<u128>;

/// A version 4 (random) UUID as RFC 9562 lays it out: version nibble 4,
/// variant bits `10`.
pub open spec fn is_random_uuid(v: u128) -> bool {
    (v >> 76u128) & 0xfu128 == 4 && (v >> 62u128) & 0x3u128 == 2
}

/// A fresh random identifier: `uuid::Uuid::new_v4`, as its 128-bit value.
/// Its bits come from the operating system's random source, except those
/// `new_v4` sets: the version nibble is 4 and the variant bits are `10`
/// (RFC 9562). Nothing else is promised of it.
#[verifier::external_body]
pub(crate) fn new_candidate_id() -> (r: u128)
    ensures
        is_random_uuid(r),
{
    uuid::Uuid::new_v4().as_u128()
}

/// Writes a UUID with `uuid::Uuid`'s `Display`, which the crate defines as
/// the hyphenated lowercase form; `Uuid::parse_str` reads that form back
/// as the same UUID.
#[verifier::external_body]
pub(crate) fn uuid_text(v: u128) -> (r: Vec<char>)
    ensures
        r@ == hyphenated(v),
        uuid_value(r@) == Some(v),
{
    uuid::Uuid::from_u128(v).to_string().chars().collect()
}

/// Reads a UUID with `uuid::Uuid::parse_str`, as its 128-bit value; named
/// by `uuid_value`. The crate's documentation says every form it writes
/// is read back, so the hyphenated form of `v` gives `v`.
#[verifier::external_body]
pub(crate) fn parse_uuid(text: &Vec<char>) -> (r: Option<u128>)
    ensures
        r == uuid_value(text@),
        forall|v: u128| text@ == hyphenated(v) ==> r == Some(v),
{
    let s: String = text.iter().collect();
    match uuid::Uuid::parse_str(&s) {
        Ok(u) => Some(u.as_u128()),
        Err(_) => None,
    }
}

} // verus!
