//! The English words for the numbers that hints mention.

use vstd::prelude::*;
use vstd::string::*;

verus! {

/// The first number for which the table has no word.
pub const NUMERAL_LIMIT: usize = 100;

/// The word for a number below twenty.
pub open spec fn small_numeral(n: nat) -> Seq<char>
    recommends
        n < 20,
{
    if n == 0 {
        "zero"@
    } else if n == 1 {
        "one"@
    } else if n == 2 {
        "two"@
    } else if n == 3 {
        "three"@
    } else if n == 4 {
        "four"@
    } else if n == 5 {
        "five"@
    } else if n == 6 {
        "six"@
    } else if n == 7 {
        "seven"@
    } else if n == 8 {
        "eight"@
    } else if n == 9 {
        "nine"@
    } else if n == 10 {
        "ten"@
    } else if n == 11 {
        "eleven"@
    } else if n == 12 {
        "twelve"@
    } else if n == 13 {
        "thirteen"@
    } else if n == 14 {
        "fourteen"@
    } else if n == 15 {
        "fifteen"@
    } else if n == 16 {
        "sixteen"@
    } else if n == 17 {
        "seventeen"@
    } else if n == 18 {
        "eighteen"@
    } else {
        "nineteen"@
    }
}

/// The word for `tens` times ten, for two to nine tens.
pub open spec fn tens_numeral(tens: nat) -> Seq<char>
    recommends
        2 <= tens < 10,
{
    if tens == 2 {
        "twenty"@
    } else if tens == 3 {
        "thirty"@
    } else if tens == 4 {
        "forty"@
    } else if tens == 5 {
        "fifty"@
    } else if tens == 6 {
        "sixty"@
    } else if tens == 7 {
        "seventy"@
    } else if tens == 8 {
        "eighty"@
    } else {
        "ninety"@
    }
}

/// The word for a number below one hundred: a single word below twenty and
/// for whole tens, otherwise the tens and the units joined by a hyphen.
pub open spec fn numeral(n: nat) -> Seq<char>
    recommends
        n < 100,
{
    if n < 20 {
        small_numeral(n)
    } else if n % 10 == 0 {
        tens_numeral(n / 10)
    } else {
        tens_numeral(n / 10) + "-"@ + small_numeral(n % 10)
    }
}

/// The word for a number below twenty.
fn small_word(n: usize) -> (word: &'static str)
    requires
        n < 20,
    ensures
        word@ == small_numeral(n as nat),
{
    if n == 0 {
        "zero"
    } else if n == 1 {
        "one"
    } else if n == 2 {
        "two"
    } else if n == 3 {
        "three"
    } else if n == 4 {
        "four"
    } else if n == 5 {
        "five"
    } else if n == 6 {
        "six"
    } else if n == 7 {
        "seven"
    } else if n == 8 {
        "eight"
    } else if n == 9 {
        "nine"
    } else if n == 10 {
        "ten"
    } else if n == 11 {
        "eleven"
    } else if n == 12 {
        "twelve"
    } else if n == 13 {
        "thirteen"
    } else if n == 14 {
        "fourteen"
    } else if n == 15 {
        "fifteen"
    } else if n == 16 {
        "sixteen"
    } else if n == 17 {
        "seventeen"
    } else if n == 18 {
        "eighteen"
    } else {
        "nineteen"
    }
}

/// The word for `tens` times ten.
fn tens_word(tens: usize) -> (word: &'static str)
    requires
        2 <= tens < 10,
    ensures
        word@ == tens_numeral(tens as nat),
{
    if tens == 2 {
        "twenty"
    } else if tens == 3 {
        "thirty"
    } else if tens == 4 {
        "forty"
    } else if tens == 5 {
        "fifty"
    } else if tens == 6 {
        "sixty"
    } else if tens == 7 {
        "seventy"
    } else if tens == 8 {
        "eighty"
    } else {
        "ninety"
    }
}

/// The word for `n`, for the numbers that the table holds: those below
/// `NUMERAL_LIMIT`.
pub fn word_for(n: usize) -> (word: Option<String>)
    ensures
        word is Some <==> n < NUMERAL_LIMIT,
        word matches Some(text) ==> text@ == numeral(n as nat),
{
    if n >= NUMERAL_LIMIT {
        None
    } else if n < 20 {
        Some(small_word(n).to_owned())
    } else if n % 10 == 0 {
        Some(tens_word(n / 10).to_owned())
    } else {
        let mut text: String = tens_word(n / 10).to_owned();
        text.append("-");
        text.append(small_word(n % 10));
        Some(text)
    }
}

} // verus!
