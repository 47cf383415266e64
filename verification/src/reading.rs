//! What the conditions read: the text under test, the auxiliary text, and
//! the few facts about them that only the standard library or the clock can
//! tell.

use vstd::prelude::*;
use vstd::utf8::encode_utf8;
use crate::clock::{clock_text, is_clock_reading};
use crate::text::{chars_of, count_class, count_in_class, lowercased, unicode_lowercased, CharClass};

verus! {

/// One snapshot of the inputs.
#[derive(Debug)]
pub struct Reading {
    /// The text under test.
    pub subject: Vec<char>,
    /// The text under test in lower case.
    pub folded: Vec<char>,
    /// The auxiliary text.
    pub auxiliary: Vec<char>,
    /// The length of the text under test in bytes of UTF-8.
    pub bytes: usize,
    /// How many characters of the text under test are upper-case letters.
    pub uppercase: usize,
    /// How many characters of the text under test are lower-case letters.
    pub lowercase: usize,
    /// The time of day, as text.
    pub clock: Vec<char>,
}

/// A snapshot as plain values.
pub struct ReadingView {
    pub subject: Seq<char>,
    pub folded: Seq<char>,
    pub auxiliary: Seq<char>,
    pub bytes: nat,
    pub uppercase: nat,
    pub lowercase: nat,
    pub clock: Seq<char>,
}

impl View for Reading {
    type V = ReadingView;

    open spec fn view(&self) -> ReadingView {
        ReadingView {
            subject: self.subject@,
            folded: self.folded@,
            auxiliary: self.auxiliary@,
            bytes: self.bytes as nat,
            uppercase: self.uppercase as nat,
            lowercase: self.lowercase as nat,
            clock: self.clock@,
        }
    }
}

/// The snapshot that belongs to the given texts and time of day.
pub open spec fn reading_of(subject: Seq<char>, auxiliary: Seq<char>, clock: Seq<char>) -> ReadingView {
    ReadingView {
        subject,
        folded: unicode_lowercased(subject),
        auxiliary,
        bytes: encode_utf8(subject).len(),
        uppercase: count_class(subject, CharClass::Uppercase),
        lowercase: count_class(subject, CharClass::Lowercase),
        clock,
    }
}

impl Reading {
    /// The snapshot of the given texts at the given time of day.
    pub fn at(subject: &str, auxiliary: &str, clock: &str) -> (reading: Reading)
        ensures
            reading@ == reading_of(subject@, auxiliary@, clock@),
    {
        let chars = chars_of(subject);
        let uppercase = count_in_class(&chars, CharClass::Uppercase);
        let lowercase = count_in_class(&chars, CharClass::Lowercase);
        Reading {
            subject: chars,
            folded: lowercased(subject),
            auxiliary: chars_of(auxiliary),
            bytes: subject.as_bytes().len(),
            uppercase,
            lowercase,
            clock: chars_of(clock),
        }
    }

    /// The snapshot of the given texts now.
    pub fn now(subject: &str, auxiliary: &str) -> (reading: Reading)
        ensures
            is_clock_reading(reading@.clock),
            reading@ == reading_of(subject@, auxiliary@, reading@.clock),
    {
        let clock = clock_text();
        Reading::at(subject, auxiliary, clock.as_str())
    }
}

} // verus!
