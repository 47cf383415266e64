//! The conditions that a password must meet: each one a predicate over a
//! snapshot of the inputs together with the hint that is shown when it
//! fails, both computed from the same parameters.

use vstd::prelude::*;
use vstd::string::*;
use crate::clock::is_clock_reading;
use crate::feedback::{colour, feedback, Colour};
use crate::grid::{in_grid, is_path_between, Position};
use crate::maze::{borders_of, directions, Borders, Maze};
use crate::numerals::{numeral, word_for, NUMERAL_LIMIT};
use crate::reading::{reading_of, Reading, ReadingView};
use crate::text::{
    chars_of, contains, contains_seq, count_class, count_in_class, decimal, decimal_of, digit_sum,
    digits_sum_to, hex_colour, hex_of, is_palindrome, reversed, text_of, CharClass,
};

verus! {

/// One condition of the catalogue.
#[derive(Debug)]
pub enum Condition {
    /// The text has at least `min` characters.
    MinLength { min: usize },
    /// The text does not hold the phrase. With `folded`, the phrase is
    /// looked for in the lower-case form of the text.
    Forbids { phrase: String, folded: bool, hint: String },
    /// The text holds the phrase. With `folded`, the phrase is looked for in
    /// the lower-case form of the text.
    Requires { phrase: String, folded: bool, hint: String },
    /// The text holds at least one of the phrases.
    RequiresOneOf { phrases: Vec<String>, hint: String },
    /// The text holds every one of the characters.
    RequiresEach { symbols: Vec<char>, hint: String },
    /// At least `min` characters of the text belong to the class.
    AtLeast { class: CharClass, min: usize },
    /// Exactly `count` characters of the text belong to the class.
    Exactly { class: CharClass, count: usize },
    /// The text holds its own length in bytes, as a decimal numeral.
    OwnLength,
    /// The text holds the auxiliary text read backwards.
    AuxiliaryReversed,
    /// The decimal digits in the text add up to `total`.
    DigitSum { total: usize },
    /// The text reads the same in both directions.
    Palindrome,
    /// The lower-case form of the text holds the answer of a word puzzle,
    /// which is shown as the coloured feedback for some guesses.
    Wordle { answer: String, guesses: Vec<String> },
    /// The lower-case form of the text holds the answer to a riddle.
    Riddle { riddle: String, answer: String },
    /// The lower-case form of the text holds the six hexadecimal digits of a
    /// colour, which is shown as a swatch.
    SecretColour { red: u8, green: u8, blue: u8 },
    /// The text holds the way through a maze from `start` to `goal`, written
    /// as directions.
    Labyrinth { maze: Maze, start: Position, goal: Position, solution: String },
    /// The text holds the time of day.
    Clock,
}

/// What is shown when a condition fails.
#[derive(Debug)]
pub enum Hint {
    /// A sentence.
    Text { text: String },
    /// A sentence and a word puzzle: one row per guess, each character with
    /// its colour.
    Wordle { caption: String, rows: Vec<Vec<(Colour, char)>> },
    /// A sentence and a riddle.
    Riddle { caption: String, riddle: String },
    /// A sentence and a colour to show, as six hexadecimal digits.
    Swatch { caption: String, hex: String },
    /// A sentence, a legend of the letters that stand for the directions,
    /// and a maze: the borders of its cells, row by row, and the two cells
    /// to mark as start and goal.
    Maze {
        caption: String,
        legend: String,
        borders: Vec<Vec<Borders>>,
        start: Position,
        goal: Position,
    },
}

/// The text of each phrase.
pub open spec fn texts(phrases: Seq<String>) -> Seq<Seq<char>> {
    Seq::new(phrases.len(), |i: int| phrases[i]@)
}

/// `hay` holds at least one of the phrases.
pub open spec fn holds_one_of(hay: Seq<char>, phrases: Seq<Seq<char>>) -> bool {
    exists|i: int| 0 <= i < phrases.len() && contains_seq(hay, #[trigger] phrases[i])
}

/// `hay` holds every one of the characters.
pub open spec fn holds_each(hay: Seq<char>, symbols: Seq<char>) -> bool {
    forall|i: int| 0 <= i < symbols.len() ==> hay.contains(#[trigger] symbols[i])
}

/// How many characters of the snapshot's text belong to the class.
pub open spec fn class_count(reading: ReadingView, class: CharClass) -> nat {
    match class {
        CharClass::Uppercase => reading.uppercase,
        CharClass::Lowercase => reading.lowercase,
        CharClass::Digit => count_class(reading.subject, CharClass::Digit),
    }
}

impl Condition {
    /// Whether the snapshot meets the condition.
    pub open spec fn satisfied(&self, reading: ReadingView) -> bool {
        match self {
            Condition::MinLength { min } => reading.subject.len() >= *min,
            Condition::Forbids { phrase, folded, hint } => !contains_seq(
                if *folded {
                    reading.folded
                } else {
                    reading.subject
                },
                phrase@,
            ),
            Condition::Requires { phrase, folded, hint } => contains_seq(
                if *folded {
                    reading.folded
                } else {
                    reading.subject
                },
                phrase@,
            ),
            Condition::RequiresOneOf { phrases, hint } => holds_one_of(
                reading.subject,
                texts(phrases@),
            ),
            Condition::RequiresEach { symbols, hint } => holds_each(reading.subject, symbols@),
            Condition::AtLeast { class, min } => class_count(reading, *class) >= *min,
            Condition::Exactly { class, count } => class_count(reading, *class) == *count,
            Condition::OwnLength => contains_seq(reading.subject, decimal(reading.bytes)),
            Condition::AuxiliaryReversed => contains_seq(
                reading.subject,
                reading.auxiliary.reverse(),
            ),
            Condition::DigitSum { total } => digit_sum(reading.subject) == *total,
            Condition::Palindrome => reading.subject == reading.subject.reverse(),
            Condition::Wordle { answer, guesses } => contains_seq(reading.folded, answer@),
            Condition::Riddle { riddle, answer } => contains_seq(reading.folded, answer@),
            Condition::SecretColour { red, green, blue } => contains_seq(
                reading.folded,
                hex_colour(*red, *green, *blue),
            ),
            Condition::Labyrinth { maze, start, goal, solution } => contains_seq(
                reading.subject,
                solution@,
            ),
            Condition::Clock => contains_seq(reading.subject, reading.clock),
        }
    }

    /// Whether the condition reads the clock.
    pub open spec fn timed(&self) -> bool {
        self is Clock
    }
}

/// Whether the text holds the phrase.
pub fn holds_phrase(hay: &Vec<char>, phrase: &str) -> (found: bool)
    ensures
        found == contains_seq(hay@, phrase@),
{
    let needle = chars_of(phrase);
    contains(hay, &needle)
}

/// Whether the text holds at least one of the phrases.
pub fn holds_any(hay: &Vec<char>, phrases: &Vec<String>) -> (found: bool)
    ensures
        found == holds_one_of(hay@, texts(phrases@)),
{
    let mut i: usize = 0;
    while i < phrases.len()
        invariant
            i <= phrases.len(),
            forall|k: int| 0 <= k < i ==> !contains_seq(hay@, #[trigger] texts(phrases@)[k]),
        decreases phrases.len() - i,
    {
        if holds_phrase(hay, phrases[i].as_str()) {
            assert(contains_seq(hay@, texts(phrases@)[i as int]));
            return true;
        }
        i += 1;
    }
    false
}

/// Whether the text holds every one of the characters.
pub fn holds_all(hay: &Vec<char>, symbols: &Vec<char>) -> (found: bool)
    ensures
        found == holds_each(hay@, symbols@),
{
    let mut i: usize = 0;
    while i < symbols.len()
        invariant
            i <= symbols.len(),
            forall|k: int| 0 <= k < i ==> hay@.contains(#[trigger] symbols@[k]),
        decreases symbols.len() - i,
    {
        let wanted: char = symbols[i];
        let mut j: usize = 0;
        let mut seen: bool = false;
        while j < hay.len() && !seen
            invariant
                j <= hay.len(),
                seen ==> hay@.contains(wanted),
                !seen ==> forall|k: int| 0 <= k < j ==> hay@[k] != wanted,
            decreases hay.len() - j,
        {
            if hay[j] == wanted {
                seen = true;
            }
            j += 1;
        }
        if !seen {
            assert(!hay@.contains(symbols@[i as int]));
            return false;
        }
        i += 1;
    }
    true
}

/// How a hint names the characters of a class.
pub open spec fn class_phrase(class: CharClass) -> Seq<char> {
    match class {
        CharClass::Uppercase => " uppercase characters."@,
        CharClass::Lowercase => " lowercase characters."@,
        CharClass::Digit => " digits."@,
    }
}

/// How a hint names the characters of a class.
pub fn class_words(class: CharClass) -> (words: &'static str)
    ensures
        words@ == class_phrase(class),
{
    match class {
        CharClass::Uppercase => " uppercase characters.",
        CharClass::Lowercase => " lowercase characters.",
        CharClass::Digit => " digits.",
    }
}

/// The rows are the feedback for the guesses against the answer.
pub open spec fn rows_score(
    rows: Seq<Vec<(Colour, char)>>,
    guesses: Seq<String>,
    answer: Seq<char>,
) -> bool {
    &&& rows.len() == guesses.len()
    &&& forall|k: int| 0 <= k < rows.len() ==> (#[trigger] rows[k])@ == feedback(guesses[k]@, answer)
}

/// The borders are those of the maze's cells, row by row.
pub open spec fn borders_show(borders: Seq<Vec<Borders>>, maze: Maze) -> bool {
    &&& borders.len() == maze@.size
    &&& forall|y: int| 0 <= y < borders.len() ==> (#[trigger] borders[y])@.len() == maze@.size
    &&& forall|x: int, y: int|
        0 <= y < maze@.size && 0 <= x < maze@.size ==> (#[trigger] borders[y]@[x]) == borders_of(
            maze@.passages,
            (x as u32, y as u32),
        )
}

/// A sentence made of a beginning, the word for a number, and an end.
fn sentence(begin: &str, n: usize, end: &str) -> (text: String)
    requires
        n < NUMERAL_LIMIT,
    ensures
        text@ == begin@ + numeral(n as nat) + end@,
{
    let mut text: String = begin.to_owned();
    match word_for(n) {
        Some(word) => {
            text.append(word.as_str());
        },
        None => {},
    }
    text.append(end);
    text
}

/// The feedback for each guess against the answer.
pub fn score_guesses(guesses: &Vec<String>, answer: &String) -> (rows: Vec<Vec<(Colour, char)>>)
    requires
        forall|k: int| 0 <= k < guesses@.len() ==> (#[trigger] guesses@[k])@.len() == answer@.len(),
    ensures
        rows_score(rows@, guesses@, answer@),
{
    let mut words: Vec<&str> = Vec::new();
    let mut i: usize = 0;
    while i < guesses.len()
        invariant
            i <= guesses.len(),
            words@.len() == i,
            forall|k: int| 0 <= k < i ==> (#[trigger] words@[k])@ == guesses@[k]@,
        decreases guesses.len() - i,
    {
        words.push(guesses[i].as_str());
        i += 1;
    }
    colour(words.as_slice(), answer.as_str())
}

impl Condition {
    /// The parameters are such that the hint can be made: a number that it
    /// spells has a word, the guesses of a word puzzle are as long as its
    /// answer, and the solution of a maze is the way from its start to its
    /// goal.
    pub open spec fn wf(&self) -> bool {
        match self {
            Condition::MinLength { min } => *min < NUMERAL_LIMIT,
            Condition::AtLeast { class, min } => *min < NUMERAL_LIMIT,
            Condition::Exactly { class, count } => *count < NUMERAL_LIMIT,
            Condition::DigitSum { total } => *total < NUMERAL_LIMIT,
            Condition::Wordle { answer, guesses } => forall|k: int|
                0 <= k < guesses@.len() ==> (#[trigger] guesses@[k])@.len() == answer@.len(),
            Condition::Labyrinth { maze, start, goal, solution } => {
                &&& maze.wf()
                &&& in_grid(maze@.size, *start)
                &&& in_grid(maze@.size, *goal)
                &&& forall|way: Seq<Position>| #[trigger]
                    is_path_between(maze@.passages, way, *start, *goal) ==> solution@
                        == directions(way)
            },
            _ => true,
        }
    }

    /// The sentence of the hint.
    pub open spec fn caption(&self) -> Seq<char> {
        match self {
            Condition::MinLength { min } => "Password must contain at least "@ + numeral(
                *min as nat,
            ) + " characters."@,
            Condition::Forbids { phrase, folded, hint } => hint@,
            Condition::Requires { phrase, folded, hint } => hint@,
            Condition::RequiresOneOf { phrases, hint } => hint@,
            Condition::RequiresEach { symbols, hint } => hint@,
            Condition::AtLeast { class, min } => "Password must contain at least "@ + numeral(
                *min as nat,
            ) + class_phrase(*class),
            Condition::Exactly { class, count } => "Password must contain exactly "@ + numeral(
                *count as nat,
            ) + class_phrase(*class),
            Condition::OwnLength => "Password must contain its length."@,
            Condition::AuxiliaryReversed => "Password must contain the username reversed."@,
            Condition::DigitSum { total } => "Digits in password must sum to "@ + numeral(
                *total as nat,
            ) + "."@,
            Condition::Palindrome => "Password must be a palindrome."@,
            Condition::Wordle { answer, guesses } => "Password must contain the answer to this Wordle."@,
            Condition::Riddle { riddle, answer } => "Password must contain the answer to this riddle:"@,
            Condition::SecretColour { red, green, blue } => "Password must contain the 24-bit hexadecimal colour of this box."@,
            Condition::Labyrinth { maze, start, goal, solution } => "Password must contain the optimal solution to this maze, from green to red."@,
            Condition::Clock => "Password must contain the current time in the format HH:MM."@,
        }
    }

    /// The hint is the one that belongs to the condition: its sentence,
    /// and with it what the condition's parameters give to show.
    pub open spec fn describes(&self, hint: Hint) -> bool {
        match (self, hint) {
            (Condition::Wordle { answer, guesses }, Hint::Wordle { caption, rows }) => {
                &&& caption@ == self.caption()
                &&& rows_score(rows@, guesses@, answer@)
            },
            (Condition::Wordle { answer, guesses }, _) => false,
            (Condition::Riddle { riddle: asked, answer }, Hint::Riddle { caption, riddle }) => {
                &&& caption@ == self.caption()
                &&& riddle@ == asked@
            },
            (Condition::Riddle { riddle: asked, answer }, _) => false,
            (Condition::SecretColour { red, green, blue }, Hint::Swatch { caption, hex }) => {
                &&& caption@ == self.caption()
                &&& hex@ == hex_colour(*red, *green, *blue)
            },
            (Condition::SecretColour { red, green, blue }, _) => false,
            (
                Condition::Labyrinth { maze, start, goal, solution },
                Hint::Maze { caption, legend, borders, start: from, goal: to },
            ) => {
                &&& caption@ == self.caption()
                &&& legend@ == "R is up, D is right, L is down, U is left."@
                &&& borders_show(borders@, *maze)
                &&& from == *start
                &&& to == *goal
            },
            (Condition::Labyrinth { maze, start, goal, solution }, _) => false,
            (_, Hint::Text { text }) => text@ == self.caption(),
            (_, _) => false,
        }
    }

    /// The hint to show when the condition fails.
    pub fn hint(&self) -> (hint: Hint)
        requires
            self.wf(),
        ensures
            self.describes(hint),
    {
        match self {
            Condition::MinLength { min } => Hint::Text {
                text: sentence("Password must contain at least ", *min, " characters."),
            },
            Condition::Forbids { phrase, folded, hint } => Hint::Text { text: hint.clone() },
            Condition::Requires { phrase, folded, hint } => Hint::Text { text: hint.clone() },
            Condition::RequiresOneOf { phrases, hint } => Hint::Text { text: hint.clone() },
            Condition::RequiresEach { symbols, hint } => Hint::Text { text: hint.clone() },
            Condition::AtLeast { class, min } => Hint::Text {
                text: sentence("Password must contain at least ", *min, class_words(*class)),
            },
            Condition::Exactly { class, count } => Hint::Text {
                text: sentence("Password must contain exactly ", *count, class_words(*class)),
            },
            Condition::OwnLength => Hint::Text {
                text: "Password must contain its length.".to_owned(),
            },
            Condition::AuxiliaryReversed => Hint::Text {
                text: "Password must contain the username reversed.".to_owned(),
            },
            Condition::DigitSum { total } => Hint::Text {
                text: sentence("Digits in password must sum to ", *total, "."),
            },
            Condition::Palindrome => Hint::Text { text: "Password must be a palindrome.".to_owned() },
            Condition::Wordle { answer, guesses } => Hint::Wordle {
                caption: "Password must contain the answer to this Wordle.".to_owned(),
                rows: score_guesses(guesses, answer),
            },
            Condition::Riddle { riddle, answer } => Hint::Riddle {
                caption: "Password must contain the answer to this riddle:".to_owned(),
                riddle: riddle.clone(),
            },
            Condition::SecretColour { red, green, blue } => {
                let digits = hex_of(*red, *green, *blue);
                Hint::Swatch {
                    caption: "Password must contain the 24-bit hexadecimal colour of this box.".to_owned(),
                    hex: text_of(&digits),
                }
            },
            Condition::Labyrinth { maze, start, goal, solution } => Hint::Maze {
                caption: "Password must contain the optimal solution to this maze, from green to red.".to_owned(),
                legend: "R is up, D is right, L is down, U is left.".to_owned(),
                borders: maze.border_rows(),
                start: *start,
                goal: *goal,
            },
            Condition::Clock => Hint::Text {
                text: "Password must contain the current time in the format HH:MM.".to_owned(),
            },
        }
    }

    /// The condition on the way through the maze from `start` to `goal`.
    pub fn labyrinth(maze: Maze, start: Position, goal: Position) -> (condition: Condition)
        requires
            maze.wf(),
            in_grid(maze@.size, start),
            in_grid(maze@.size, goal),
        ensures
            condition.wf(),
            condition matches Condition::Labyrinth { maze: held, start: from, goal: to, solution }
                && held == maze && from == start && to == goal,
    {
        let solution = maze.solution(start, goal);
        Condition::Labyrinth { maze, start, goal, solution }
    }

    /// How many characters of the snapshot's text belong to the class.
    fn count(reading: &Reading, class: CharClass) -> (count: usize)
        ensures
            count == class_count(reading@, class),
    {
        match class {
            CharClass::Uppercase => reading.uppercase,
            CharClass::Lowercase => reading.lowercase,
            CharClass::Digit => count_in_class(&reading.subject, CharClass::Digit),
        }
    }

    /// Whether the snapshot meets the condition.
    pub fn holds_on(&self, reading: &Reading) -> (met: bool)
        ensures
            met == self.satisfied(reading@),
    {
        match self {
            Condition::MinLength { min } => reading.subject.len() >= *min,
            Condition::Forbids { phrase, folded, hint } => {
                if *folded {
                    !holds_phrase(&reading.folded, phrase.as_str())
                } else {
                    !holds_phrase(&reading.subject, phrase.as_str())
                }
            },
            Condition::Requires { phrase, folded, hint } => {
                if *folded {
                    holds_phrase(&reading.folded, phrase.as_str())
                } else {
                    holds_phrase(&reading.subject, phrase.as_str())
                }
            },
            Condition::RequiresOneOf { phrases, hint } => holds_any(&reading.subject, phrases),
            Condition::RequiresEach { symbols, hint } => holds_all(&reading.subject, symbols),
            Condition::AtLeast { class, min } => Condition::count(reading, *class) >= *min,
            Condition::Exactly { class, count } => Condition::count(reading, *class) == *count,
            Condition::OwnLength => {
                let numeral = decimal_of(reading.bytes);
                contains(&reading.subject, &numeral)
            },
            Condition::AuxiliaryReversed => {
                let back = reversed(&reading.auxiliary);
                contains(&reading.subject, &back)
            },
            Condition::DigitSum { total } => digits_sum_to(&reading.subject, *total),
            Condition::Palindrome => is_palindrome(&reading.subject),
            Condition::Wordle { answer, guesses } => holds_phrase(&reading.folded, answer.as_str()),
            Condition::Riddle { riddle, answer } => holds_phrase(&reading.folded, answer.as_str()),
            Condition::SecretColour { red, green, blue } => {
                let hex = hex_of(*red, *green, *blue);
                contains(&reading.folded, &hex)
            },
            Condition::Labyrinth { maze, start, goal, solution } => holds_phrase(
                &reading.subject,
                solution.as_str(),
            ),
            Condition::Clock => contains(&reading.subject, &reading.clock),
        }
    }

    /// Whether the texts meet the condition at the given time of day.
    pub fn holds_at(&self, subject: &str, auxiliary: &str, clock: &str) -> (met: bool)
        ensures
            met == self.satisfied(reading_of(subject@, auxiliary@, clock@)),
    {
        let reading = Reading::at(subject, auxiliary, clock);
        self.holds_on(&reading)
    }

    /// Whether the texts meet the condition now.
    pub fn holds(&self, subject: &str, auxiliary: &str) -> (met: bool)
        ensures
            exists|clock: Seq<char>|
                is_clock_reading(clock) && met == self.satisfied(
                    #[trigger] reading_of(subject@, auxiliary@, clock),
                ),
            !self.timed() ==> forall|clock: Seq<char>|
                met == self.satisfied(#[trigger] reading_of(subject@, auxiliary@, clock)),
    {
        let reading = Reading::now(subject, auxiliary);
        self.holds_on(&reading)
    }
}

} // verus!
