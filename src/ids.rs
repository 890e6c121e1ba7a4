//! Node identifiers: 128-bit uuids, drawn and printed through the uuid crate.

use vstd::prelude::*;
use crate::color::{hex_char, pow16};

verus! {

/// The 32 lower-case hex digits of `u`, most significant first.
pub open spec fn uuid_digits(u: u128) -> Seq<char> {
    Seq::new(32, |i: int| hex_char((u as int / pow16(31 - i)) % 16))
}

/// The hyphenated lower-case text of a uuid: its hex digits in groups of
/// 8, 4, 4, 4 and 12.
pub open spec fn uuid_text(u: u128) -> Seq<char> {
    let h = uuid_digits(u);
    h.subrange(0, 8) + seq!['-'] + h.subrange(8, 12) + seq!['-'] + h.subrange(12, 16) + seq!['-']
        + h.subrange(16, 20) + seq!['-'] + h.subrange(20, 32)
}

/// Relies on uuid::Uuid::new_v4 and Uuid::as_u128: a fresh random uuid.
/// Nothing is known of the value.
#[verifier::external_body]
pub(crate) fn fresh_uuid() -> (r: u128) {
    uuid::Uuid::new_v4().as_u128()
}

/// Relies on uuid::Uuid::from_u128 and Uuid's Display: the hyphenated
/// lower-case form, which depends on the value alone.
#[verifier::external_body]
pub(crate) fn uuid_to_string(u: u128) -> (r: String)
    ensures
        r@ == uuid_text(u),
{
    uuid::Uuid::from_u128(u).to_string()
}

} // verus!
