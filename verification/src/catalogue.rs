//! The catalogue of a session: the conditions in their fixed order, built
//! from the parameters that the session draws at random when it starts.

use vstd::pervasive::unreached;
use vstd::prelude::*;
use vstd::seq_lib::{to_multiset_contains, to_multiset_len};
use crate::carver::generate;
use crate::chance::{choose_from, number_between, shuffle};
use crate::conditions::{texts, Condition};
use crate::grid::{in_grid, Position};
use crate::lexicon::{
    all_fit, anthem, anthem_lines, riddle_answer, riddle_text, word_list, GUESS_COUNT, WORD_LENGTH,
};
use crate::maze::Maze;
use crate::numerals::NUMERAL_LIMIT;
use crate::text::CharClass;

verus! {

/// The number of columns and of rows of a session's maze.
pub const MAZE_SIZE: u32 = 20;

/// The number of conditions in the catalogue.
pub const CATALOGUE_LENGTH: usize = 20;

/// What a session draws at random when it starts.
#[derive(Debug)]
pub struct Parameters {
    /// The least number of characters.
    pub min_length: usize,
    /// The least number of upper-case letters.
    pub uppercase: usize,
    /// The least number of digits.
    pub digits: usize,
    /// The answer of the word puzzle.
    pub answer: String,
    /// The guesses shown with the word puzzle.
    pub guesses: Vec<String>,
    /// What the digits must add up to.
    pub digit_sum: usize,
    /// The red part of the secret colour.
    pub red: u8,
    /// The green part of the secret colour.
    pub green: u8,
    /// The blue part of the secret colour.
    pub blue: u8,
    /// The exact number of lower-case letters.
    pub lowercase: usize,
    /// The maze.
    pub maze: Maze,
    /// Where the way through the maze starts.
    pub start: Position,
    /// Where the way through the maze ends.
    pub goal: Position,
}

impl Parameters {
    /// Each number lies in the range from which a session draws it.
    pub open spec fn in_range(&self) -> bool {
        &&& 8 <= self.min_length <= 12
        &&& 3 <= self.uppercase <= 6
        &&& 3 <= self.digits <= 6
        &&& 58 <= self.digit_sum <= 68
        &&& 46 <= self.lowercase <= 58
    }

    /// Each number has a word, the guesses are as long as the answer, and
    /// the maze is one with start and goal among its cells.
    pub open spec fn wf(&self) -> bool {
        &&& self.min_length < NUMERAL_LIMIT
        &&& self.uppercase < NUMERAL_LIMIT
        &&& self.digits < NUMERAL_LIMIT
        &&& self.digit_sum < NUMERAL_LIMIT
        &&& self.lowercase < NUMERAL_LIMIT
        &&& forall|k: int|
            0 <= k < self.guesses@.len() ==> (#[trigger] self.guesses@[k])@.len()
                == self.answer@.len()
        &&& self.maze.wf()
        &&& in_grid(self.maze@.size, self.start)
        &&& in_grid(self.maze@.size, self.goal)
    }
}

/// The list holds the conditions of the catalogue, in order, with the given
/// parameters.
pub open spec fn is_catalogue(list: Seq<Condition>, parameters: Parameters) -> bool {
    &&& list.len() == CATALOGUE_LENGTH
    &&& list[0] matches Condition::MinLength { min } && min == parameters.min_length
    &&& list[1] matches Condition::Forbids { phrase, folded, hint } && phrase@ == "bean"@ && folded
        && hint@ == "Password may not contain the phrase 'bean'."@
    &&& list[2] matches Condition::AtLeast { class, min } && class == CharClass::Uppercase && min
        == parameters.uppercase
    &&& list[3] matches Condition::AtLeast { class, min } && class == CharClass::Digit && min
        == parameters.digits
    &&& list[4] matches Condition::RequiresOneOf { phrases, hint } && texts(phrases@) == anthem()
        && hint@
        == "Password must contain a correctly punctuated line from the Australian national anthem."@
    &&& list[5] matches Condition::Forbids { phrase, folded, hint } && phrase@ == "Australia"@
        && !folded && hint@ == "Password may not contain the phrase 'Australia'."@
    &&& list[6] matches Condition::Requires { phrase, folded, hint } && phrase@ == "\u{1F6A1}"@
        && !folded && hint@ == "Password must contain the aerial tramway emoji."@
    &&& list[7] matches Condition::Requires { phrase, folded, hint } && phrase@ == "\u{F8FF}"@
        && folded && hint@ == "Password must contain the Apple logo."@
    &&& list[8] matches Condition::Wordle { answer, guesses } && answer == parameters.answer
        && guesses == parameters.guesses
    &&& list[9] is OwnLength
    &&& list[10] is AuxiliaryReversed
    &&& list[11] matches Condition::DigitSum { total } && total == parameters.digit_sum
    &&& list[12] matches Condition::Requires { phrase, folded, hint } && phrase@ == "blue"@
        && folded && hint@ == "Password must contain my favourite colour."@
    &&& list[13] matches Condition::SecretColour { red, green, blue } && red == parameters.red
        && green == parameters.green && blue == parameters.blue
    &&& list[14] matches Condition::Exactly { class, count } && class == CharClass::Lowercase
        && count == parameters.lowercase
    &&& list[15] matches Condition::Riddle { riddle, answer } && riddle@
        == "What do you call a person that's struggling to set a password? An _____."@ && answer@
        == "idiot"@
    &&& list[16] matches Condition::RequiresEach { symbols, hint } && symbols@ == seq![
        '\u{1F3FB}',
        '\u{1F3FC}',
        '\u{1F3FD}',
        '\u{1F3FE}',
        '\u{1F3FF}',
    ] && hint@ == "Password must be ethnically diverse. \u{1F44D}"@
    &&& list[17] matches Condition::Labyrinth { maze, start, goal, solution } && maze
        == parameters.maze && start == parameters.start && goal == parameters.goal
    &&& list[18] is Clock
    &&& list[19] is Palindrome
}

/// Every condition of the list is well formed.
pub open spec fn all_wf(list: Seq<Condition>) -> bool {
    forall|i: int| 0 <= i < list.len() ==> (#[trigger] list[i]).wf()
}

/// The catalogue for the given parameters.
pub fn catalogue(parameters: Parameters) -> (list: Vec<Condition>)
    requires
        parameters.wf(),
    ensures
        is_catalogue(list@, parameters),
        all_wf(list@),
{
    let mut list: Vec<Condition> = Vec::new();
    list.push(Condition::MinLength { min: parameters.min_length });
    list.push(
        Condition::Forbids {
            phrase: "bean".to_owned(),
            folded: true,
            hint: "Password may not contain the phrase 'bean'.".to_owned(),
        },
    );
    list.push(Condition::AtLeast { class: CharClass::Uppercase, min: parameters.uppercase });
    list.push(Condition::AtLeast { class: CharClass::Digit, min: parameters.digits });
    let lines = anthem_lines();
    assert(texts(lines@) =~= anthem());
    list.push(
        Condition::RequiresOneOf {
            phrases: lines,
            hint: "Password must contain a correctly punctuated line from the Australian national anthem.".to_owned(),
        },
    );
    list.push(
        Condition::Forbids {
            phrase: "Australia".to_owned(),
            folded: false,
            hint: "Password may not contain the phrase 'Australia'.".to_owned(),
        },
    );
    list.push(
        Condition::Requires {
            phrase: "\u{1F6A1}".to_owned(),
            folded: false,
            hint: "Password must contain the aerial tramway emoji.".to_owned(),
        },
    );
    list.push(
        Condition::Requires {
            phrase: "\u{F8FF}".to_owned(),
            folded: true,
            hint: "Password must contain the Apple logo.".to_owned(),
        },
    );
    list.push(Condition::Wordle { answer: parameters.answer, guesses: parameters.guesses });
    list.push(Condition::OwnLength);
    list.push(Condition::AuxiliaryReversed);
    list.push(Condition::DigitSum { total: parameters.digit_sum });
    list.push(
        Condition::Requires {
            phrase: "blue".to_owned(),
            folded: true,
            hint: "Password must contain my favourite colour.".to_owned(),
        },
    );
    list.push(
        Condition::SecretColour {
            red: parameters.red,
            green: parameters.green,
            blue: parameters.blue,
        },
    );
    list.push(Condition::Exactly { class: CharClass::Lowercase, count: parameters.lowercase });
    list.push(Condition::Riddle { riddle: riddle_text(), answer: riddle_answer() });
    let mut tones: Vec<char> = Vec::new();
    tones.push('\u{1F3FB}');
    tones.push('\u{1F3FC}');
    tones.push('\u{1F3FD}');
    tones.push('\u{1F3FE}');
    tones.push('\u{1F3FF}');
    assert(tones@ =~= seq!['\u{1F3FB}', '\u{1F3FC}', '\u{1F3FD}', '\u{1F3FE}', '\u{1F3FF}']);
    list.push(
        Condition::RequiresEach {
            symbols: tones,
            hint: "Password must be ethnically diverse. \u{1F44D}".to_owned(),
        },
    );
    list.push(Condition::labyrinth(parameters.maze, parameters.start, parameters.goal));
    list.push(Condition::Clock);
    list.push(Condition::Palindrome);
    list
}

/// `a` comes before `b` when the cells are read row by row.
pub open spec fn precedes(a: Position, b: Position) -> bool {
    a.1 < b.1 || (a.1 == b.1 && a.0 < b.0)
}

/// Every cell of a grid, row by row from the top, each row from the left.
pub fn all_cells(size: u32) -> (cells: Vec<Position>)
    ensures
        forall|p: Position| cells@.contains(p) <==> in_grid(size as nat, p),
        forall|i: int, j: int|
            0 <= i < j < cells@.len() ==> precedes(#[trigger] cells@[i], #[trigger] cells@[j]),
{
    let mut cells: Vec<Position> = Vec::new();
    let mut y: u32 = 0;
    while y < size
        invariant
            y <= size,
            forall|i: int|
                0 <= i < cells@.len() ==> (#[trigger] cells@[i]).0 < size && cells@[i].1 < y,
            forall|p: Position| p.0 < size && p.1 < y ==> cells@.contains(p),
            forall|i: int, j: int|
                0 <= i < j < cells@.len() ==> precedes(#[trigger] cells@[i], #[trigger] cells@[j]),
        decreases size - y,
    {
        let mut x: u32 = 0;
        while x < size
            invariant
                y < size,
                x <= size,
                forall|i: int|
                    0 <= i < cells@.len() ==> (#[trigger] cells@[i]).0 < size && (cells@[i].1 < y
                        || (cells@[i].1 == y && cells@[i].0 < x)),
                forall|p: Position|
                    (p.0 < size && p.1 < y) || (p.0 < x && p.1 == y) ==> cells@.contains(p),
                forall|i: int, j: int|
                    0 <= i < j < cells@.len() ==> precedes(
                        #[trigger] cells@[i],
                        #[trigger] cells@[j],
                    ),
            decreases size - x,
        {
            let ghost before = cells@;
            cells.push((x, y));
            proof {
                assert forall|p: Position|
                    (p.0 < size && p.1 < y) || (p.0 < x + 1 && p.1 == y) implies cells@.contains(
                    p,
                ) by {
                    if p == (x, y) {
                        assert(cells@[before.len() as int] == p);
                    } else {
                        assert(before.contains(p));
                        let i = choose|i: int| 0 <= i < before.len() && before[i] == p;
                        assert(cells@[i] == p);
                    }
                }
                assert forall|i: int, j: int| 0 <= i < j < cells@.len() implies precedes(
                    #[trigger] cells@[i],
                    #[trigger] cells@[j],
                ) by {
                    assert(cells@[i] == before[i]);
                    if j < before.len() {
                        assert(cells@[j] == before[j]);
                    }
                }
            }
            x += 1;
        }
        y += 1;
    }
    assert forall|p: Position| cells@.contains(p) implies in_grid(size as nat, p) by {
        let i = choose|i: int| 0 <= i < cells@.len() && cells@[i] == p;
        assert(cells@[i].0 < size);
    }
    cells
}

impl Parameters {
    /// Draws the parameters of a session at random.
    pub fn draw() -> (parameters: Parameters)
        ensures
            parameters.wf(),
            parameters.in_range(),
            parameters.answer@.len() == WORD_LENGTH,
            parameters.guesses@.len() == GUESS_COUNT,
            parameters.maze@.size == MAZE_SIZE,
    {
        let min_length = number_between(8, 12);
        let uppercase = number_between(3, 6);
        let digits = number_between(3, 6);
        let mut words = word_list();
        let answer: &'static str = match choose_from(&words) {
            Some(word) => word,
            None => unreached(),
        };
        let ghost listed = words@;
        shuffle(&mut words);
        proof {
            to_multiset_len(listed);
            to_multiset_len(words@);
            assert forall|i: int| 0 <= i < words@.len() implies (#[trigger] words@[i])@.len()
                == WORD_LENGTH by {
                to_multiset_contains(words@, words@[i]);
                to_multiset_contains(listed, words@[i]);
                assert(words@.contains(words@[i]));
                let j = choose|j: int| 0 <= j < listed.len() && listed[j] == words@[i];
                assert(listed[j]@.len() == WORD_LENGTH);
            }
        }
        let mut guesses: Vec<String> = Vec::new();
        let mut i: usize = 0;
        while i < GUESS_COUNT
            invariant
                i <= GUESS_COUNT,
                words@.len() >= GUESS_COUNT,
                all_fit(words@),
                guesses@.len() == i,
                forall|k: int| 0 <= k < i ==> (#[trigger] guesses@[k])@.len() == WORD_LENGTH,
            decreases GUESS_COUNT - i,
        {
            guesses.push(words[i].to_owned());
            i += 1;
        }
        let digit_sum = number_between(58, 68);
        let red = number_between(0, 255) as u8;
        let green = number_between(0, 255) as u8;
        let blue = number_between(0, 255) as u8;
        let lowercase = number_between(46, 58);
        let maze = match generate(MAZE_SIZE) {
            Ok(maze) => maze,
            Err(_) => unreached(),
        };
        let cells = all_cells(MAZE_SIZE);
        proof {
            assert(in_grid(MAZE_SIZE as nat, (0u32, 0u32)));
            assert(cells@.contains((0u32, 0u32)));
        }
        let start: Position = match choose_from(&cells) {
            Some(cell) => cell,
            None => unreached(),
        };
        let goal: Position = match choose_from(&cells) {
            Some(cell) => cell,
            None => unreached(),
        };
        Parameters {
            min_length,
            uppercase,
            digits,
            answer: answer.to_owned(),
            guesses,
            digit_sum,
            red,
            green,
            blue,
            lowercase,
            maze,
            start,
            goal,
        }
    }
}

/// The conditions of a new session, in their fixed order, each with the
/// parameters drawn for it at random.
pub fn conditions() -> (list: Vec<Condition>)
    ensures
        exists|parameters: Parameters|
            parameters.wf() && parameters.in_range() && #[trigger] is_catalogue(list@, parameters),
        all_wf(list@),
{
    let parameters = Parameters::draw();
    let list = catalogue(parameters);
    assert(is_catalogue(list@, parameters));
    list
}

} // verus!
