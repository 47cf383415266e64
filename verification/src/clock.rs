//! The wall clock, as the one condition that depends on it reads it.

use vstd::prelude::*;
use crate::text::{decimal, digit_symbol};

verus! {

/// A time of day as a condition asks for it: the hour without padding, a
/// colon, and the minute in two digits.
pub open spec fn clock_reading(hour: nat, minute: nat) -> Seq<char> {
    decimal(hour) + seq![':', digit_symbol(minute / 10), digit_symbol(minute % 10)]
}

/// The text is a time of day, of the twenty-four hours of a day and the
/// sixty minutes of an hour.
pub open spec fn is_clock_reading(text: Seq<char>) -> bool {
    exists|hour: nat, minute: nat|
        hour < 24 && minute < 60 && text == #[trigger] clock_reading(hour, minute)
}

/// `Local::now` of `chrono`, written by `DateTime::format` with the pattern
/// `%-H:%M`: the hour of the day, from 0 to 23, without padding, a colon, and
/// the minute, from 00 to 59, in two digits. Which time it is depends on when
/// the call is made, so no more is stated.
#[verifier::external_body]
pub(crate) fn clock_text() -> (text: String)
    ensures
        is_clock_reading(text@),
{
    chrono::Local::now().format("%-H:%M").to_string()
}

} // verus!
