//! Random draws. Each function here hands one call to the `rand` crate; its
//! contract is taken on trust from that crate's documentation.

use rand::Rng;
use vstd::prelude::*;

verus! {

/// The byte is an ASCII letter or digit.
pub open spec fn is_alphanumeric(c: u8) -> bool {
    ||| 0x30 <= c <= 0x39
    ||| 0x41 <= c <= 0x5a
    ||| 0x61 <= c <= 0x7a
}

/// `Rng::gen_range` over `low..high` on the thread-local generator: a value
/// of the half-open range. The call panics on an empty range, which
/// `requires` leaves out.
#[verifier::external_body]
pub(crate) fn random_in(low: i32, high: i32) -> (r: i32)
    requires
        low < high,
    ensures
        low <= r < high,
{
    rand::thread_rng().gen_range(low..high)
}

/// `Rng::gen_ratio` on the thread-local generator: `true` with a chance of
/// `numerator` in `denominator`. Of a single draw only the two certain cases
/// are promised. The call panics on a zero denominator and on a numerator
/// above it, which `requires` leaves out.
#[verifier::external_body]
pub(crate) fn random_ratio(numerator: u32, denominator: u32) -> (r: bool)
    requires
        0 < denominator,
        numerator <= denominator,
    ensures
        numerator == denominator ==> r,
        numerator == 0 ==> !r,
{
    rand::thread_rng().gen_ratio(numerator, denominator)
}

/// `Rng::sample` of `rand::distributions::Alphanumeric` on the thread-local
/// generator: one byte out of `A-Z`, `a-z` and `0-9`.
#[verifier::external_body]
pub(crate) fn random_alphanumeric() -> (c: u8)
    ensures
        is_alphanumeric(c),
{
    rand::thread_rng().sample(rand::distributions::Alphanumeric)
}

} // verus!
