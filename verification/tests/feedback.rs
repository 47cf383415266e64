use password_puzzle::feedback::{colour, colour_of, score, Colour};

fn chars(s: &str) -> Vec<char> {
    s.chars().collect()
}

fn tags(row: &[(Colour, char)]) -> Vec<Colour> {
    row.iter().map(|(tag, _)| *tag).collect()
}

#[test]
fn exact_guess_is_all_green() {
    let rows = colour(&["crane"], "crane");
    assert_eq!(rows.len(), 1);
    assert_eq!(tags(&rows[0]), vec![Colour::Green; 5]);
}

#[test]
fn guess_without_shared_letters_is_all_grey() {
    let rows = colour(&["abcde"], "fghij");
    assert_eq!(tags(&rows[0]), vec![Colour::Grey; 5]);
}

#[test]
fn rows_keep_the_characters_of_the_guess() {
    let rows = colour(&["slate", "house"], "stone");
    assert_eq!(rows.len(), 2);
    let first: String = rows[0].iter().map(|(_, c)| *c).collect();
    let second: String = rows[1].iter().map(|(_, c)| *c).collect();
    assert_eq!(first, "slate");
    assert_eq!(second, "house");
}

#[test]
fn abab_against_aabb() {
    // Both misplaced letters find an occurrence that nothing has claimed.
    let rows = colour(&["ABAB"], "AABB");
    assert_eq!(
        tags(&rows[0]),
        vec![Colour::Green, Colour::Yellow, Colour::Yellow, Colour::Green]
    );
}

#[test]
fn third_occurrence_finds_nothing_left() {
    let rows = colour(&["AAAB"], "ABCA");
    assert_eq!(
        tags(&rows[0]),
        vec![Colour::Green, Colour::Yellow, Colour::Grey, Colour::Yellow]
    );
}

#[test]
fn green_match_elsewhere_leaves_nothing_to_claim() {
    // The only `e` of the secret is matched exactly by the last letter.
    let rows = colour(&["eerie"], "crane");
    assert_eq!(
        tags(&rows[0]),
        vec![Colour::Grey, Colour::Grey, Colour::Yellow, Colour::Grey, Colour::Green]
    );
}

#[test]
fn two_misplaced_of_two() {
    let rows = colour(&["aabb"], "bbaa");
    assert_eq!(tags(&rows[0]), vec![Colour::Yellow; 4]);
}

#[test]
fn colour_of_one_position() {
    let guess = chars("slate");
    let secret = chars("stone");
    assert_eq!(colour_of(&guess, &secret, 0), Colour::Green);
    assert_eq!(colour_of(&guess, &secret, 1), Colour::Grey);
    assert_eq!(colour_of(&guess, &secret, 2), Colour::Grey);
    assert_eq!(colour_of(&guess, &secret, 3), Colour::Yellow);
    assert_eq!(colour_of(&guess, &secret, 4), Colour::Green);
}

#[test]
fn score_is_one_row_of_colour() {
    let row = score(&chars("slate"), &chars("stone"));
    let rows = colour(&["slate"], "stone");
    assert_eq!(row, rows[0]);
}

#[test]
fn no_guesses_give_no_rows() {
    let rows = colour(&[], "crane");
    assert!(rows.is_empty());
}

#[test]
fn empty_words_give_empty_rows() {
    let rows = colour(&[""], "");
    assert_eq!(rows.len(), 1);
    assert!(rows[0].is_empty());
}
