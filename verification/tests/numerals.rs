use password_puzzle::numerals::{word_for, NUMERAL_LIMIT};

#[test]
fn small_numbers_have_one_word() {
    assert_eq!(word_for(0).as_deref(), Some("zero"));
    assert_eq!(word_for(3).as_deref(), Some("three"));
    assert_eq!(word_for(6).as_deref(), Some("six"));
    assert_eq!(word_for(12).as_deref(), Some("twelve"));
    assert_eq!(word_for(19).as_deref(), Some("nineteen"));
}

#[test]
fn whole_tens_have_one_word() {
    assert_eq!(word_for(20).as_deref(), Some("twenty"));
    assert_eq!(word_for(40).as_deref(), Some("forty"));
    assert_eq!(word_for(60).as_deref(), Some("sixty"));
    assert_eq!(word_for(90).as_deref(), Some("ninety"));
}

#[test]
fn other_numbers_are_hyphenated() {
    assert_eq!(word_for(21).as_deref(), Some("twenty-one"));
    assert_eq!(word_for(46).as_deref(), Some("forty-six"));
    assert_eq!(word_for(58).as_deref(), Some("fifty-eight"));
    assert_eq!(word_for(68).as_deref(), Some("sixty-eight"));
    assert_eq!(word_for(99).as_deref(), Some("ninety-nine"));
}

#[test]
fn numbers_beyond_the_table_have_no_word() {
    assert_eq!(NUMERAL_LIMIT, 100);
    assert_eq!(word_for(100), None);
    assert_eq!(word_for(usize::MAX), None);
}

#[test]
fn every_number_of_the_table_has_a_word() {
    for n in 0..NUMERAL_LIMIT {
        let word = word_for(n).unwrap();
        assert!(!word.is_empty());
    }
}
