//! Protocol constants and the host functions that the ledgers compute with.

use vstd::prelude::*;

verus! {

/// Fee divisor: fees are given in thousandths.
pub const FEE_DIVISOR: u32 = 1_000;

/// Denominator of a debt ratio: a ratio of `RATIO_DIVISOR` is the whole pool.
pub const RATIO_DIVISOR: u128 = 1_000_000;

/// Precision of a price: a value divided by it is an amount of the settlement
/// asset.
pub const PRICE_PRECISION: u32 = 100_000;

/// Price of one byte of storage.
pub const STORAGE_PRICE_PER_BYTE: u128 = 10_000_000_000_000_000_000;

/// A character that separates the parts of an account identifier.
pub open spec fn is_separator(c: char) -> bool {
    c == '-' || c == '_' || c == '.'
}

/// A character that an account identifier may hold: a lower-case letter, a
/// digit or a separator.
pub open spec fn is_id_char(c: char) -> bool {
    (('a' as u32) <= (c as u32) <= ('z' as u32)) || (('0' as u32) <= (c as u32) <= ('9' as u32))
        || is_separator(c)
}

/// Whether the host accepts `id` as an account identifier: 2 to 64
/// characters of `[a-z0-9-_.]`, with no separator first, last, or next to
/// another.
pub open spec fn valid_account_id(id: Seq<char>) -> bool {
    &&& 2 <= id.len() <= 64
    &&& forall|i: int| 0 <= i < id.len() ==> is_id_char(#[trigger] id[i])
    &&& !is_separator(id[0])
    &&& !is_separator(id[id.len() - 1])
    &&& forall|i: int|
        0 <= i < id.len() - 1 ==> !(is_separator(#[trigger] id[i]) && is_separator(id[i + 1]))
}

/// Relies on near_sdk::env::storage_byte_cost, which returns the genesis
/// price of one byte of storage, a constant.
#[verifier::external_body]
pub(crate) fn storage_byte_cost() -> (r: u128)
    ensures
        r == STORAGE_PRICE_PER_BYTE,
{
    near_sdk::env::storage_byte_cost()
}

/// Relies on near_sdk::env::is_valid_account_id, which checks the length
/// (2 to 64 bytes), the characters (`[a-z0-9-_.]`, all one byte each) and
/// the placement of separators.
#[verifier::external_body]
pub(crate) fn is_valid_account_id(id: &String) -> (r: bool)
    ensures
        r == valid_account_id(id@),
{
    near_sdk::env::is_valid_account_id(id.as_bytes())
}

} // verus!
