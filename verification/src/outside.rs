//! The few calls this library makes into code it does not verify.
//!
//! Each function here is believed, not proved: its body makes the outside
//! call and turns what comes back into a plain value, and its contract says
//! what that call is documented to do.

use vstd::prelude::*;

verus! {

/// Whether `id` has the marks of a version 7 identifier: the four bits of
/// the version hold seven, and the two bits of the variant hold binary `10`.
pub open spec fn is_version_seven(id: u128) -> bool {
    &&& (id as nat / 0x1000_0000_0000_0000_0000) % 16 == 7
    &&& (id as nat / 0x4000_0000_0000_0000) % 4 == 2
}

/// Calls `uuid::Uuid::now_v7` and hands back the identifier as the 128-bit
/// number that `Uuid::as_u128` gives (its sixteen bytes, big-endian).
///
/// The identifier depends on the system time and on random bits. Of every
/// outcome the crate's source shows only that it carries the version and
/// the variant of its kind, and no more is claimed here.
///
/// The call does not return on a machine whose clock stands before the Unix
/// epoch or whose operating system gives no random bytes: it panics there.
/// Nothing that a caller could test rules that out.
#[verifier::external_body]
pub(crate) fn fresh_uuid() -> (id: u128)
    ensures
        is_version_seven(id),
{
    uuid::Uuid::now_v7().as_u128()
}

/// Calls `std::time::SystemTime::now` and hands back the nanoseconds that
/// have passed since the Unix epoch, or nothing where the system clock
/// stands before it.
///
/// The reading depends on the machine's clock, so nothing is promised of it.
#[verifier::external_body]
pub(crate) fn wall_clock_nanos() -> (now: Option<u128>) {
    match std::time::SystemTime::now().duration_since(std::time::UNIX_EPOCH) {
        Ok(elapsed) => Some(elapsed.as_nanos()),
        Err(_) => None,
    }
}

/// A point of the machine's monotonic clock.
#[verifier::external_type_specification]
#[verifier::external_body]
pub struct ExInstant(std::time::Instant);

/// Calls `std::time::Instant::now`: the present point of the monotonic
/// clock. Nothing is promised of it.
#[verifier::external_body]
pub(crate) fn monotonic_now() -> (now: std::time::Instant) {
    std::time::Instant::now()
}

/// Calls `std::time::Instant::elapsed` and hands back, in nanoseconds, the
/// time that has passed since `since`. It depends on the clock, so nothing
/// is promised of it.
#[verifier::external_body]
pub(crate) fn nanos_since(since: &std::time::Instant) -> (elapsed: u128) {
    since.elapsed().as_nanos()
}

/// The digit of `value`, below sixteen, in lower-case hexadecimal.
pub open spec fn hex_digit(value: nat) -> char {
    if value == 0 {
        '0'
    } else if value == 1 {
        '1'
    } else if value == 2 {
        '2'
    } else if value == 3 {
        '3'
    } else if value == 4 {
        '4'
    } else if value == 5 {
        '5'
    } else if value == 6 {
        '6'
    } else if value == 7 {
        '7'
    } else if value == 8 {
        '8'
    } else if value == 9 {
        '9'
    } else if value == 10 {
        'a'
    } else if value == 11 {
        'b'
    } else if value == 12 {
        'c'
    } else if value == 13 {
        'd'
    } else if value == 14 {
        'e'
    } else {
        'f'
    }
}

/// The last `digits` hexadecimal digits of `value`, most significant first.
pub open spec fn hex_text(value: nat, digits: nat) -> Seq<char>
    decreases digits,
{
    if digits == 0 {
        Seq::empty()
    } else {
        hex_text(value / 16, (digits - 1) as nat).push(hex_digit(value % 16))
    }
}

/// A text of hexadecimal digits has as many characters as digits were asked
/// for.
pub proof fn lemma_hex_text_len(value: nat, digits: nat)
    ensures
        hex_text(value, digits).len() == digits,
    decreases digits,
{
    if digits > 0 {
        lemma_hex_text_len(value / 16, (digits - 1) as nat);
    }
}

/// Calls `uuid::Uuid::from_u128` and formats the identifier in the crate's
/// simple form: its 128 bits as thirty-two lower-case hexadecimal digits,
/// without hyphens.
#[verifier::external_body]
pub(crate) fn uuid_simple_text(id: u128) -> (text: String)
    ensures
        text@ == hex_text(id as nat, 32),
{
    uuid::Uuid::from_u128(id).simple().to_string()
}

} // verus!
