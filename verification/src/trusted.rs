//! The calls that leave the verified code, each behind a contract that is
//! believed and not proved.
//!
//! Every function here is a thin wrapper: its body makes one call and
//! converts the arguments and the result. What its contract says was read
//! off the documentation and the source of the function it calls.

use rand::Rng;
use sha1::{Digest, Sha1};
use std::time::{SystemTime, UNIX_EPOCH};
use vstd::prelude::*;
use vstd::utf8::{decode_utf8, valid_utf8};

verus! {

/// The SHA-1 digest of `data`.
pub uninterp spec fn sha1_digest(data: Seq<u8>) -> Seq<u8>;

/// Calls `Sha1::digest` of the `sha1` crate.
///
/// Believed: the result is the SHA-1 digest of `data`, a function of the
/// bytes alone, and has 20 bytes.
#[verifier::external_body]
pub(crate) fn sha1(data: &[u8]) -> (digest: Vec<u8>)
    ensures
        digest@ == sha1_digest(data@),
        digest@.len() == 20,
{
    Sha1::digest(data).to_vec()
}

/// The lower-case hexadecimal digit for `n`, which is below 16.
pub open spec fn hex_digit(n: int) -> char {
    if n < 10 {
        (0x30 + n) as char
    } else {
        (0x61 + n - 10) as char
    }
}

/// The lower-case hexadecimal text of `bytes`: two digits for each byte,
/// the high half first.
pub open spec fn hex_text(bytes: Seq<u8>) -> Seq<char> {
    Seq::new(
        2 * bytes.len(),
        |i: int|
            if i % 2 == 0 {
                hex_digit(bytes[i / 2] as int / 16)
            } else {
                hex_digit(bytes[i / 2] as int % 16)
            },
    )
}

/// Calls `hex::encode`.
///
/// Believed: the result spells each byte of `bytes`, in order, as two
/// lower-case hexadecimal digits, the high half first.
#[verifier::external_body]
pub(crate) fn hex_encode(bytes: &[u8]) -> (text: String)
    ensures
        text@ == hex_text(bytes@),
{
    hex::encode(bytes)
}

/// Calls `String::from_utf8` of the standard library.
///
/// Believed: the call succeeds exactly on valid UTF-8, and the string it
/// then gives holds the characters that the bytes encode.
#[verifier::external_body]
pub(crate) fn string_from_utf8(bytes: Vec<u8>) -> (text: Option<String>)
    ensures
        match text {
            Some(s) => valid_utf8(bytes@) && s@ == decode_utf8(bytes@),
            None => !valid_utf8(bytes@),
        },
{
    String::from_utf8(bytes).ok()
}

/// Calls `SystemTime::now` of the standard library and gives the time as
/// milliseconds since the Unix epoch, or zero for a clock that stands
/// before the epoch.
///
/// Nothing is believed of the result: two calls may give any two numbers.
#[verifier::external_body]
pub(crate) fn now_millis() -> u128 {
    match SystemTime::now().duration_since(UNIX_EPOCH) {
        Ok(elapsed) => elapsed.as_millis(),
        Err(_) => 0,
    }
}

/// Calls `Rng::random_range` of the `rand` crate on the generator of the
/// thread, `rand::rng()`, with the range from `low` to `high`, both
/// included.
///
/// Believed: the result lies in that range. Nothing else is said of it: two
/// calls may give any two numbers of the range.
#[verifier::external_body]
pub(crate) fn random_in(low: u64, high: u64) -> (n: u64)
    requires
        low <= high,
    ensures
        low <= n <= high,
{
    rand::rng().random_range(low..=high)
}

} // verus!
