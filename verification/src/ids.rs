//! Request and response identifiers: UUIDs, held as their 128-bit value.

use vstd::prelude::*;
use vstd::arithmetic::power::pow;

verus! {

/// The lowercase hexadecimal digit of `n` (`0 <= n < 16`).
pub open spec fn hex_digit(n: int) -> char {
    if n < 10 { (48 + n) as char } else { (87 + n) as char }
}

/// The `k`-th hexadecimal digit of `v`, most significant first (`0 <= k < 32`).
pub open spec fn uuid_nibble(v: u128, k: int) -> int {
    (v as int / pow(16, (31 - k) as nat)) % 16
}

/// Which hexadecimal digit stands at position `p` of the hyphenated text.
pub open spec fn uuid_digit_at(p: int) -> int {
    if p < 8 { p } else if p < 13 { p - 1 } else if p < 18 { p - 2 } else if p < 23 { p - 3 } else { p - 4 }
}

/// The hyphenated lowercase text of a UUID: its 32 hexadecimal digits, most
/// significant first, in groups of 8-4-4-4-12.
pub open spec fn uuid_text(v: u128) -> Seq<char> {
    Seq::new(36, |p: int|
        if p == 8 || p == 13 || p == 18 || p == 23 { '-' } else { hex_digit(uuid_nibble(v, uuid_digit_at(p))) })
}

/// `v` carries the marks of a random UUID: version nibble 4 and the RFC 4122 variant.
pub open spec fn is_v4_id(v: u128) -> bool {
    &&& (v >> 76u128) & 0xfu128 == 4
    &&& (v >> 62u128) & 0x3u128 == 2
}

/// A fresh random (version 4) UUID from `uuid::Uuid::new_v4`, as its 128-bit value.
/// Only its version and variant bits are stated; the other bits are random.
#[verifier::external_body]
pub fn new_request_id() -> (r: u128)
    ensures
        (r >> 76u128) & 0xfu128 == 4,
        (r >> 62u128) & 0x3u128 == 2,
{
    uuid::Uuid::new_v4().as_u128()
}

/// The text of a UUID (`uuid::Uuid::from_u128(id).to_string()`): hyphenated lowercase
/// hexadecimal, most significant digit first.
#[verifier::external_body]
pub fn uuid_to_string(id: u128) -> (r: String)
    ensures
        r@ == uuid_text(id),
{
    uuid::Uuid::from_u128(id).to_string()
}

} // verus!
