//! Colour feedback for a guessed word against a secret word of the same
//! length, with letters that occur more than once counted exactly.

use vstd::prelude::*;
use crate::text::chars_of;

verus! {

/// The tag that one character of a guess receives.
#[derive(Clone, Copy, Debug, PartialEq, Eq, Structural)]
pub enum Colour {
    /// The character does not occur in the secret, or every occurrence of it
    /// there is already claimed.
    Grey,
    /// The character occurs in the secret, at another position.
    Yellow,
    /// The character stands at this position in the secret.
    Green,
}

/// How many positions below `upto` hold `c` in the secret while the guess
/// holds something else there: the occurrences of `c` that a misplaced `c`
/// of the guess may claim.
pub open spec fn unclaimed(guess: Seq<char>, secret: Seq<char>, c: char, upto: int) -> nat
    decreases upto,
{
    if upto <= 0 {
        0
    } else {
        unclaimed(guess, secret, c, upto - 1) + if secret[upto - 1] == c && guess[upto - 1] != c {
            1nat
        } else {
            0nat
        }
    }
}

/// How many positions below `upto` hold `c` in the guess while the secret
/// holds something else there: the claims that the guess makes on `c`.
pub open spec fn claims(guess: Seq<char>, secret: Seq<char>, c: char, upto: int) -> nat
    decreases upto,
{
    if upto <= 0 {
        0
    } else {
        claims(guess, secret, c, upto - 1) + if guess[upto - 1] == c && secret[upto - 1] != c {
            1nat
        } else {
            0nat
        }
    }
}

/// The colour of position `i` of the guess: green on an exact match;
/// otherwise yellow as long as the claims made up to and including this
/// position do not exceed the occurrences left to claim in the whole secret;
/// otherwise grey.
pub open spec fn colour_at(guess: Seq<char>, secret: Seq<char>, i: int) -> Colour
    recommends
        guess.len() == secret.len(),
        0 <= i < guess.len(),
{
    if guess[i] == secret[i] {
        Colour::Green
    } else if claims(guess, secret, guess[i], i + 1) <= unclaimed(
        guess,
        secret,
        guess[i],
        secret.len() as int,
    ) {
        Colour::Yellow
    } else {
        Colour::Grey
    }
}

/// The feedback for a whole guess: each character with its colour.
pub open spec fn feedback(guess: Seq<char>, secret: Seq<char>) -> Seq<(Colour, char)>
    recommends
        guess.len() == secret.len(),
{
    Seq::new(guess.len(), |i: int| (colour_at(guess, secret, i), guess[i]))
}

/// The occurrences left to claim only grow as more of the secret is read.
pub proof fn lemma_unclaimed_grows(
    guess: Seq<char>,
    secret: Seq<char>,
    c: char,
    low: int,
    high: int,
)
    requires
        low <= high,
    ensures
        unclaimed(guess, secret, c, low) <= unclaimed(guess, secret, c, high),
    decreases high - low,
{
    if low < high {
        lemma_unclaimed_grows(guess, secret, c, low, high - 1);
    }
}

/// The colour of one position of the guess.
pub fn colour_of(guess: &Vec<char>, secret: &Vec<char>, i: usize) -> (tag: Colour)
    requires
        guess@.len() == secret@.len(),
        i < guess@.len(),
    ensures
        tag == colour_at(guess@, secret@, i as int),
{
    let c: char = guess[i];
    if c == secret[i] {
        return Colour::Green;
    }
    let n: usize = secret.len();
    let mut wrong_word: usize = 0;
    let mut wrong_guess: usize = 0;
    let mut j: usize = 0;
    while j < n
        invariant
            n == secret.len(),
            n == guess.len(),
            i < n,
            j <= n,
            c == guess@[i as int],
            c != secret@[i as int],
            wrong_word == unclaimed(guess@, secret@, c, j as int),
            wrong_guess == claims(guess@, secret@, c, if j <= i { j as int } else { i + 1 }),
            wrong_word <= j,
            wrong_guess <= j,
            j > i ==> wrong_guess > wrong_word,
        decreases n - j,
    {
        if secret[j] == c && guess[j] != c {
            wrong_word += 1;
        }
        if j <= i && guess[j] == c && secret[j] != c {
            wrong_guess += 1;
        }
        if j >= i && wrong_guess <= wrong_word {
            proof {
                lemma_unclaimed_grows(guess@, secret@, c, j + 1, n as int);
            }
            return Colour::Yellow;
        }
        j += 1;
    }
    Colour::Grey
}

/// The feedback for one guess.
pub fn score(guess: &Vec<char>, secret: &Vec<char>) -> (row: Vec<(Colour, char)>)
    requires
        guess@.len() == secret@.len(),
    ensures
        row@ == feedback(guess@, secret@),
{
    let mut row: Vec<(Colour, char)> = Vec::new();
    let mut i: usize = 0;
    while i < guess.len()
        invariant
            guess@.len() == secret@.len(),
            i <= guess.len(),
            row@.len() == i,
            forall|k: int| 0 <= k < i ==> #[trigger] row@[k] == feedback(guess@, secret@)[k],
        decreases guess.len() - i,
    {
        let tag = colour_of(guess, secret, i);
        row.push((tag, guess[i]));
        i += 1;
    }
    assert(row@ =~= feedback(guess@, secret@));
    row
}

/// The feedback for each of the guessed words against the answer: one row
/// per word, one coloured character per position.
pub fn colour(words: &[&str], answer: &str) -> (rows: Vec<Vec<(Colour, char)>>)
    requires
        forall|k: int| 0 <= k < words@.len() ==> (#[trigger] words@[k])@.len() == answer@.len(),
    ensures
        rows@.len() == words@.len(),
        forall|k: int|
            0 <= k < words@.len() ==> (#[trigger] rows@[k])@ == feedback(words@[k]@, answer@),
{
    let secret = chars_of(answer);
    let mut rows: Vec<Vec<(Colour, char)>> = Vec::new();
    let mut k: usize = 0;
    while k < words.len()
        invariant
            secret@ == answer@,
            k <= words@.len(),
            rows@.len() == k,
            forall|j: int| 0 <= j < words@.len() ==> (#[trigger] words@[j])@.len() == answer@.len(),
            forall|j: int| 0 <= j < k ==> (#[trigger] rows@[j])@ == feedback(words@[j]@, answer@),
        decreases words@.len() - k,
    {
        let guess = chars_of(words[k]);
        let row = score(&guess, &secret);
        rows.push(row);
        k += 1;
    }
    rows
}

/// A guess that equals the secret is green at every position.
pub proof fn lemma_exact_guess_all_green(secret: Seq<char>)
    ensures
        feedback(secret, secret).len() == secret.len(),
        forall|i: int|
            0 <= i < secret.len() ==> (#[trigger] feedback(secret, secret)[i]).0 == Colour::Green,
{
}

/// Where the secret holds no `c` at all, nothing is left to claim for `c`.
pub proof fn lemma_absent_char_unclaimed(guess: Seq<char>, secret: Seq<char>, c: char, upto: int)
    requires
        upto <= secret.len(),
        forall|j: int| 0 <= j < secret.len() ==> secret[j] != c,
    ensures
        unclaimed(guess, secret, c, upto) == 0,
    decreases upto,
{
    if upto > 0 {
        lemma_absent_char_unclaimed(guess, secret, c, upto - 1);
    }
}

/// A guess that shares no character with the secret is grey at every
/// position.
pub proof fn lemma_disjoint_guess_all_grey(guess: Seq<char>, secret: Seq<char>)
    requires
        guess.len() == secret.len(),
        forall|i: int, j: int|
            0 <= i < guess.len() && 0 <= j < secret.len() ==> guess[i] != secret[j],
    ensures
        feedback(guess, secret).len() == guess.len(),
        forall|i: int|
            0 <= i < guess.len() ==> (#[trigger] feedback(guess, secret)[i]).0 == Colour::Grey,
{
    assert forall|i: int| 0 <= i < guess.len() implies (#[trigger] feedback(guess, secret)[i]).0
        == Colour::Grey by {
        let c = guess[i];
        assert(guess[i] != secret[i]);
        assert forall|j: int| 0 <= j < secret.len() implies secret[j] != c by {
            assert(guess[i] != secret[j]);
        }
        lemma_absent_char_unclaimed(guess, secret, c, secret.len() as int);
        assert(claims(guess, secret, c, i + 1) >= 1);
    }
}

} // verus!
