//! The fixed texts that the conditions draw on: the words of the word
//! puzzle, the lines of the anthem, and the riddle.

use vstd::prelude::*;

verus! {

/// The length of every word of the word puzzle.
pub const WORD_LENGTH: usize = 5;

/// The number of guesses shown with the word puzzle.
pub const GUESS_COUNT: usize = 5;

/// The words of the word puzzle, all in lower case.
pub open spec fn puzzle_words() -> Seq<Seq<char>> {
    seq![
        "crane"@,
        "slate"@,
        "audio"@,
        "house"@,
        "plant"@,
        "stone"@,
        "bread"@,
        "chair"@,
        "light"@,
        "mouse"@,
        "river"@,
        "tiger"@,
        "water"@,
        "apple"@,
        "grape"@,
        "lemon"@,
        "music"@,
        "night"@,
        "ocean"@,
        "piano"@,
        "queen"@,
        "robot"@,
        "sugar"@,
        "table"@,
        "uncle"@,
        "voice"@,
        "whale"@,
        "youth"@,
        "zebra"@,
        "beach"@,
        "cloud"@,
        "dance"@,
        "eagle"@,
        "flame"@,
        "ghost"@,
        "heart"@,
        "ivory"@,
        "juice"@,
        "knife"@,
        "laser"@,
    ]
}

/// The lines of the anthem "Advance Australia Fair", each with its
/// punctuation and without repetition.
pub open spec fn anthem() -> Seq<Seq<char>> {
    seq![
        "Australians all let us rejoice,"@,
        "For we are one and free;"@,
        "We've golden soil and wealth for toil;"@,
        "Our home is girt by sea;"@,
        "Our land abounds in nature's gifts"@,
        "Of beauty rich and rare;"@,
        "In history's page, let every stage"@,
        "Advance Australia Fair."@,
        "In joyful strains then let us sing,"@,
        "Beneath our radiant Southern Cross"@,
        "We'll toil with hearts and hands;"@,
        "To make this Commonwealth of ours"@,
        "Renowned of all the lands;"@,
        "For those who've come across the seas"@,
        "We've boundless plains to share;"@,
        "With courage let us all combine"@,
        "To Advance Australia Fair."@,
    ]
}

/// Every word of the list has the length of the puzzle's words.
pub open spec fn all_fit(words: Seq<&'static str>) -> bool {
    forall|i: int| 0 <= i < words.len() ==> (#[trigger] words[i])@.len() == WORD_LENGTH
}

/// The list holds the first words of the puzzle.
pub open spec fn spells(words: Seq<&'static str>) -> bool {
    &&& words.len() <= puzzle_words().len()
    &&& forall|i: int| 0 <= i < words.len() ==> (#[trigger] words[i])@ == puzzle_words()[i]
}

/// Adds the next word of the puzzle to the list.
fn add_word(words: &mut Vec<&'static str>, word: &'static str)
    requires
        all_fit(old(words)@),
        spells(old(words)@),
        old(words)@.len() < puzzle_words().len(),
        word@ == puzzle_words()[old(words)@.len() as int],
        word@.len() == WORD_LENGTH,
    ensures
        all_fit(final(words)@),
        spells(final(words)@),
        final(words)@.len() == old(words)@.len() + 1,
{
    words.push(word);
}

/// The words of the word puzzle.
pub fn word_list() -> (words: Vec<&'static str>)
    ensures
        words@.len() == puzzle_words().len(),
        words@.len() == 40,
        spells(words@),
        all_fit(words@),
{
    let mut words: Vec<&'static str> = Vec::new();
    proof {
        reveal_strlit("crane");
        reveal_strlit("slate");
        reveal_strlit("audio");
        reveal_strlit("house");
        reveal_strlit("plant");
        reveal_strlit("stone");
        reveal_strlit("bread");
        reveal_strlit("chair");
        reveal_strlit("light");
        reveal_strlit("mouse");
        reveal_strlit("river");
        reveal_strlit("tiger");
        reveal_strlit("water");
        reveal_strlit("apple");
        reveal_strlit("grape");
        reveal_strlit("lemon");
        reveal_strlit("music");
        reveal_strlit("night");
        reveal_strlit("ocean");
        reveal_strlit("piano");
        reveal_strlit("queen");
        reveal_strlit("robot");
        reveal_strlit("sugar");
        reveal_strlit("table");
        reveal_strlit("uncle");
        reveal_strlit("voice");
        reveal_strlit("whale");
        reveal_strlit("youth");
        reveal_strlit("zebra");
        reveal_strlit("beach");
        reveal_strlit("cloud");
        reveal_strlit("dance");
        reveal_strlit("eagle");
        reveal_strlit("flame");
        reveal_strlit("ghost");
        reveal_strlit("heart");
        reveal_strlit("ivory");
        reveal_strlit("juice");
        reveal_strlit("knife");
        reveal_strlit("laser");
    }
    add_word(&mut words, "crane");
    add_word(&mut words, "slate");
    add_word(&mut words, "audio");
    add_word(&mut words, "house");
    add_word(&mut words, "plant");
    add_word(&mut words, "stone");
    add_word(&mut words, "bread");
    add_word(&mut words, "chair");
    add_word(&mut words, "light");
    add_word(&mut words, "mouse");
    add_word(&mut words, "river");
    add_word(&mut words, "tiger");
    add_word(&mut words, "water");
    add_word(&mut words, "apple");
    add_word(&mut words, "grape");
    add_word(&mut words, "lemon");
    add_word(&mut words, "music");
    add_word(&mut words, "night");
    add_word(&mut words, "ocean");
    add_word(&mut words, "piano");
    add_word(&mut words, "queen");
    add_word(&mut words, "robot");
    add_word(&mut words, "sugar");
    add_word(&mut words, "table");
    add_word(&mut words, "uncle");
    add_word(&mut words, "voice");
    add_word(&mut words, "whale");
    add_word(&mut words, "youth");
    add_word(&mut words, "zebra");
    add_word(&mut words, "beach");
    add_word(&mut words, "cloud");
    add_word(&mut words, "dance");
    add_word(&mut words, "eagle");
    add_word(&mut words, "flame");
    add_word(&mut words, "ghost");
    add_word(&mut words, "heart");
    add_word(&mut words, "ivory");
    add_word(&mut words, "juice");
    add_word(&mut words, "knife");
    add_word(&mut words, "laser");
    words
}

/// The text of the lines is that of the anthem, line by line.
pub open spec fn recites(lines: Seq<String>) -> bool {
    &&& lines.len() == anthem().len()
    &&& forall|i: int| 0 <= i < lines.len() ==> (#[trigger] lines[i])@ == anthem()[i]
}

/// The lines of the anthem.
pub fn anthem_lines() -> (lines: Vec<String>)
    ensures
        recites(lines@),
{
    let mut lines: Vec<String> = Vec::new();
    lines.push("Australians all let us rejoice,".to_owned());
    lines.push("For we are one and free;".to_owned());
    lines.push("We've golden soil and wealth for toil;".to_owned());
    lines.push("Our home is girt by sea;".to_owned());
    lines.push("Our land abounds in nature's gifts".to_owned());
    lines.push("Of beauty rich and rare;".to_owned());
    lines.push("In history's page, let every stage".to_owned());
    lines.push("Advance Australia Fair.".to_owned());
    lines.push("In joyful strains then let us sing,".to_owned());
    lines.push("Beneath our radiant Southern Cross".to_owned());
    lines.push("We'll toil with hearts and hands;".to_owned());
    lines.push("To make this Commonwealth of ours".to_owned());
    lines.push("Renowned of all the lands;".to_owned());
    lines.push("For those who've come across the seas".to_owned());
    lines.push("We've boundless plains to share;".to_owned());
    lines.push("With courage let us all combine".to_owned());
    lines.push("To Advance Australia Fair.".to_owned());
    lines
}

/// The riddle.
pub fn riddle_text() -> (riddle: String)
    ensures
        riddle@ == "What do you call a person that's struggling to set a password? An _____."@,
{
    "What do you call a person that's struggling to set a password? An _____.".to_owned()
}

/// The answer to the riddle.
pub fn riddle_answer() -> (answer: String)
    ensures
        answer@ == "idiot"@,
{
    "idiot".to_owned()
}

} // verus!
