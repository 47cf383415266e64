use password_puzzle::carver::generate;
use password_puzzle::catalogue::{
    all_cells, catalogue, conditions, Parameters, CATALOGUE_LENGTH, MAZE_SIZE,
};
use password_puzzle::conditions::{
    class_words, holds_all, holds_any, holds_phrase, score_guesses, Condition, Hint,
};
use password_puzzle::feedback::Colour;
use password_puzzle::lexicon::{
    anthem_lines, riddle_answer, riddle_text, word_list, GUESS_COUNT, WORD_LENGTH,
};
use password_puzzle::reading::Reading;
use password_puzzle::text::CharClass;

fn chars(s: &str) -> Vec<char> {
    s.chars().collect()
}

fn text_of_hint(hint: &Hint) -> &str {
    match hint {
        Hint::Text { text } => text,
        Hint::Wordle { caption, .. } => caption,
        Hint::Riddle { caption, .. } => caption,
        Hint::Swatch { caption, .. } => caption,
        Hint::Maze { caption, .. } => caption,
    }
}

fn parameters() -> Parameters {
    Parameters {
        min_length: 8,
        uppercase: 3,
        digits: 4,
        answer: "crane".to_string(),
        guesses: vec![
            "slate".to_string(),
            "house".to_string(),
            "crane".to_string(),
            "eagle".to_string(),
            "ocean".to_string(),
        ],
        digit_sum: 60,
        red: 0x12,
        green: 0xab,
        blue: 0x0f,
        lowercase: 50,
        maze: generate(MAZE_SIZE).unwrap(),
        start: (0, 0),
        goal: (19, 19),
    }
}

#[test]
fn min_length_counts_characters() {
    let rule = Condition::MinLength { min: 3 };
    assert!(!rule.holds_at("", "", "0:00"));
    assert!(!rule.holds_at("ab", "", "0:00"));
    assert!(rule.holds_at("abc", "", "0:00"));
    assert!(rule.holds_at("\u{1F6A1}\u{1F6A1}\u{1F6A1}", "", "0:00"));
}

#[test]
fn forbidden_phrase_is_found_in_any_case_when_folded() {
    let rule = Condition::Forbids {
        phrase: "bean".to_string(),
        folded: true,
        hint: "no beans".to_string(),
    };
    assert!(rule.holds_at("", "", "0:00"));
    assert!(rule.holds_at("bea n", "", "0:00"));
    assert!(!rule.holds_at("a bean", "", "0:00"));
    assert!(!rule.holds_at("A BeAn", "", "0:00"));
}

#[test]
fn forbidden_phrase_is_exact_when_not_folded() {
    let rule = Condition::Forbids {
        phrase: "Australia".to_string(),
        folded: false,
        hint: "no".to_string(),
    };
    assert!(!rule.holds_at("Advance Australia Fair.", "", "0:00"));
    assert!(rule.holds_at("advance australia fair.", "", "0:00"));
}

#[test]
fn required_phrase_folded_and_exact() {
    let folded = Condition::Requires {
        phrase: "blue".to_string(),
        folded: true,
        hint: "colour".to_string(),
    };
    assert!(folded.holds_at("BLUE sky", "", "0:00"));
    assert!(!folded.holds_at("red sky", "", "0:00"));
    let exact = Condition::Requires {
        phrase: "\u{1F6A1}".to_string(),
        folded: false,
        hint: "tramway".to_string(),
    };
    assert!(exact.holds_at("up \u{1F6A1} we go", "", "0:00"));
    assert!(!exact.holds_at("up we go", "", "0:00"));
}

#[test]
fn one_line_of_several_is_enough() {
    let rule = Condition::RequiresOneOf { phrases: anthem_lines(), hint: "anthem".to_string() };
    assert!(rule.holds_at("x Our home is girt by sea; y", "", "0:00"));
    assert!(rule.holds_at("Advance Australia Fair.", "", "0:00"));
    assert!(!rule.holds_at("Our home is girt by sea", "", "0:00"));
    assert!(!rule.holds_at("", "", "0:00"));
    let none = Condition::RequiresOneOf { phrases: Vec::new(), hint: "none".to_string() };
    assert!(!none.holds_at("anything", "", "0:00"));
}

#[test]
fn every_symbol_is_asked_for() {
    let tones = vec!['\u{1F3FB}', '\u{1F3FC}', '\u{1F3FD}', '\u{1F3FE}', '\u{1F3FF}'];
    let rule = Condition::RequiresEach { symbols: tones, hint: "tones".to_string() };
    assert!(rule.holds_at("\u{1F3FF}\u{1F3FE}a\u{1F3FD}\u{1F3FC}b\u{1F3FB}", "", "0:00"));
    assert!(!rule.holds_at("\u{1F3FF}\u{1F3FE}\u{1F3FD}\u{1F3FC}", "", "0:00"));
    assert!(!rule.holds_at("", "", "0:00"));
}

#[test]
fn counts_by_class() {
    let upper = Condition::AtLeast { class: CharClass::Uppercase, min: 3 };
    assert!(upper.holds_at("aBcDeF", "", "0:00"));
    assert!(!upper.holds_at("aBcDef", "", "0:00"));
    let digits = Condition::AtLeast { class: CharClass::Digit, min: 2 };
    assert!(digits.holds_at("a1b2", "", "0:00"));
    assert!(!digits.holds_at("a1b", "", "0:00"));
    let lower = Condition::Exactly { class: CharClass::Lowercase, count: 2 };
    assert!(lower.holds_at("AbcD", "", "0:00"));
    assert!(!lower.holds_at("Abcd", "", "0:00"));
    assert!(!lower.holds_at("AbCD", "", "0:00"));
}

#[test]
fn own_length_is_counted_in_bytes() {
    let rule = Condition::OwnLength;
    assert!(rule.holds_at("abc4", "", "0:00"));
    assert!(!rule.holds_at("abc3", "", "0:00"));
    // One character of four bytes, and the digit: five bytes.
    assert!(rule.holds_at("\u{1F6A1}5", "", "0:00"));
    assert!(!rule.holds_at("\u{1F6A1}2", "", "0:00"));
    assert!(!rule.holds_at("", "", "0:00"));
    assert!(rule.holds_at("0123456789-13", "", "0:00"));
    assert!(!rule.holds_at("0123456789-12x", "", "0:00"));
}

#[test]
fn auxiliary_text_is_read_backwards() {
    let rule = Condition::AuxiliaryReversed;
    assert!(rule.holds_at("xx ecila yy", "alice", "0:00"));
    assert!(!rule.holds_at("xx alice yy", "alice", "0:00"));
    assert!(rule.holds_at("anything", "", "0:00"));
    assert!(rule.holds_at("", "", "0:00"));
}

#[test]
fn digit_sum_is_exact() {
    let rule = Condition::DigitSum { total: 10 };
    assert!(rule.holds_at("1a2b3c4", "", "0:00"));
    assert!(!rule.holds_at("1a2b3c5", "", "0:00"));
    assert!(!rule.holds_at("", "", "0:00"));
}

#[test]
fn palindrome_reads_both_ways() {
    let rule = Condition::Palindrome;
    assert!(rule.holds_at("", "", "0:00"));
    assert!(rule.holds_at("abcba", "", "0:00"));
    assert!(!rule.holds_at("abcbA", "", "0:00"));
}

#[test]
fn secret_colour_in_lower_case_hex() {
    let rule = Condition::SecretColour { red: 0x12, green: 0xab, blue: 0x0f };
    assert!(rule.holds_at("xx12ab0fyy", "", "0:00"));
    assert!(rule.holds_at("xx12AB0Fyy", "", "0:00"));
    assert!(!rule.holds_at("xx12ab0eyy", "", "0:00"));
    assert!(!rule.holds_at("xx12ab1fyy", "", "0:00"));
    assert!(!rule.holds_at("12abf", "", "0:00"));
}

#[test]
fn word_and_riddle_answers_are_folded() {
    let word = Condition::Wordle { answer: "crane".to_string(), guesses: Vec::new() };
    assert!(word.holds_at("a CRANE flies", "", "0:00"));
    assert!(!word.holds_at("a cran e", "", "0:00"));
    let riddle = Condition::Riddle { riddle: riddle_text(), answer: riddle_answer() };
    assert!(riddle.holds_at("IDIOT", "", "0:00"));
    assert!(!riddle.holds_at("genius", "", "0:00"));
}

#[test]
fn clock_condition_reads_the_time_given() {
    let rule = Condition::Clock;
    assert!(rule.holds_at("it is 9:05 now", "", "9:05"));
    assert!(!rule.holds_at("it is 9:05 now", "", "9:06"));
    assert!(!rule.holds_at("it is 09:05 now", "", "19:05"));
}

#[test]
fn clock_condition_now_agrees_with_the_clock() {
    let now = Reading::now("", "");
    let clock: String = now.clock.iter().collect();
    let parts: Vec<&str> = clock.split(':').collect();
    assert_eq!(parts.len(), 2);
    let hour: u32 = parts[0].parse().unwrap();
    let minute: u32 = parts[1].parse().unwrap();
    assert!(hour < 24 && minute < 60);
    assert_eq!(parts[1].len(), 2);
    assert!(!Condition::Clock.holds("no time at all", ""));
}

#[test]
fn labyrinth_asks_for_the_way() {
    let maze = generate(5).unwrap();
    let way = maze.solution((0, 0), (4, 4));
    let rule = Condition::labyrinth(maze, (0, 0), (4, 4));
    assert!(rule.holds_at(&format!("go {way} there"), "", "0:00"));
    assert!(!rule.holds_at("go nowhere", "", "0:00"));
    match &rule {
        Condition::Labyrinth { start, goal, solution, .. } => {
            assert_eq!(*start, (0, 0));
            assert_eq!(*goal, (4, 4));
            assert_eq!(*solution, way);
            assert!(solution.chars().count() >= 8);
        }
        _ => panic!("not a labyrinth"),
    }
}

#[test]
fn holds_on_reads_the_snapshot_as_given() {
    let reading = Reading {
        subject: chars("Text"),
        folded: chars("something else"),
        auxiliary: chars("ab"),
        bytes: 77,
        uppercase: 9,
        lowercase: 0,
        clock: chars("ex"),
    };
    let folded = Condition::Requires {
        phrase: "else".to_string(),
        folded: true,
        hint: String::new(),
    };
    assert!(folded.holds_on(&reading));
    let exact = Condition::Requires {
        phrase: "else".to_string(),
        folded: false,
        hint: String::new(),
    };
    assert!(!exact.holds_on(&reading));
    assert!(Condition::AtLeast { class: CharClass::Uppercase, min: 9 }.holds_on(&reading));
    assert!(!Condition::AtLeast { class: CharClass::Uppercase, min: 10 }.holds_on(&reading));
    assert!(Condition::Exactly { class: CharClass::Lowercase, count: 0 }.holds_on(&reading));
    assert!(Condition::Exactly { class: CharClass::Digit, count: 0 }.holds_on(&reading));
    assert!(!Condition::OwnLength.holds_on(&reading));
    assert!(Condition::Clock.holds_on(&reading));
    assert!(!Condition::AuxiliaryReversed.holds_on(&reading));
}

#[test]
fn snapshot_of_the_texts() {
    let reading = Reading::at("AbC \u{1F6A1}1", "user", "7:30");
    assert_eq!(reading.subject, chars("AbC \u{1F6A1}1"));
    assert_eq!(reading.folded, chars("abc \u{1F6A1}1"));
    assert_eq!(reading.auxiliary, chars("user"));
    assert_eq!(reading.bytes, 9);
    assert_eq!(reading.uppercase, 2);
    assert_eq!(reading.lowercase, 1);
    assert_eq!(reading.clock, chars("7:30"));
}

#[test]
fn phrase_helpers() {
    assert!(holds_phrase(&chars("abcdef"), "cde"));
    assert!(!holds_phrase(&chars("abcdef"), "ced"));
    assert!(holds_any(&chars("abcdef"), &vec!["xy".to_string(), "ef".to_string()]));
    assert!(!holds_any(&chars("abcdef"), &vec!["xy".to_string(), "fe".to_string()]));
    assert!(holds_all(&chars("abcdef"), &vec!['f', 'a']));
    assert!(!holds_all(&chars("abcdef"), &vec!['f', 'z']));
    assert!(holds_all(&chars(""), &Vec::new()));
}

#[test]
fn hints_spell_the_numbers() {
    let hint = Condition::AtLeast { class: CharClass::Uppercase, min: 5 }.hint();
    assert_eq!(text_of_hint(&hint), "Password must contain at least five uppercase characters.");
    let hint = Condition::AtLeast { class: CharClass::Digit, min: 3 }.hint();
    assert_eq!(text_of_hint(&hint), "Password must contain at least three digits.");
    let hint = Condition::Exactly { class: CharClass::Lowercase, count: 46 }.hint();
    assert_eq!(
        text_of_hint(&hint),
        "Password must contain exactly forty-six lowercase characters."
    );
    let hint = Condition::DigitSum { total: 63 }.hint();
    assert_eq!(text_of_hint(&hint), "Digits in password must sum to sixty-three.");
    let hint = Condition::MinLength { min: 8 }.hint();
    assert_eq!(text_of_hint(&hint), "Password must contain at least eight characters.");
}

#[test]
fn fixed_hints() {
    assert_eq!(text_of_hint(&Condition::OwnLength.hint()), "Password must contain its length.");
    assert_eq!(
        text_of_hint(&Condition::AuxiliaryReversed.hint()),
        "Password must contain the username reversed."
    );
    assert_eq!(text_of_hint(&Condition::Palindrome.hint()), "Password must be a palindrome.");
    assert_eq!(
        text_of_hint(&Condition::Clock.hint()),
        "Password must contain the current time in the format HH:MM."
    );
    let rule = Condition::Forbids {
        phrase: "bean".to_string(),
        folded: true,
        hint: "Password may not contain the phrase 'bean'.".to_string(),
    };
    assert!(matches!(rule.hint(), Hint::Text { text } if text == "Password may not contain the phrase 'bean'."));
}

#[test]
fn swatch_hint_shows_the_colour() {
    match (Condition::SecretColour { red: 0, green: 0x7f, blue: 0xff }).hint() {
        Hint::Swatch { caption, hex } => {
            assert_eq!(caption, "Password must contain the 24-bit hexadecimal colour of this box.");
            assert_eq!(hex, "007fff");
        }
        other => panic!("unexpected hint {other:?}"),
    }
}

#[test]
fn wordle_hint_shows_the_feedback() {
    let rule = Condition::Wordle {
        answer: "stone".to_string(),
        guesses: vec!["slate".to_string(), "stone".to_string()],
    };
    match rule.hint() {
        Hint::Wordle { caption, rows } => {
            assert_eq!(caption, "Password must contain the answer to this Wordle.");
            assert_eq!(rows.len(), 2);
            assert_eq!(
                rows[0],
                vec![
                    (Colour::Green, 's'),
                    (Colour::Grey, 'l'),
                    (Colour::Grey, 'a'),
                    (Colour::Yellow, 't'),
                    (Colour::Green, 'e'),
                ]
            );
            assert!(rows[1].iter().all(|(tag, _)| *tag == Colour::Green));
        }
        other => panic!("unexpected hint {other:?}"),
    }
}

#[test]
fn riddle_hint_shows_the_riddle() {
    let rule = Condition::Riddle { riddle: riddle_text(), answer: riddle_answer() };
    match rule.hint() {
        Hint::Riddle { caption, riddle } => {
            assert_eq!(caption, "Password must contain the answer to this riddle:");
            assert_eq!(
                riddle,
                "What do you call a person that's struggling to set a password? An _____."
            );
        }
        other => panic!("unexpected hint {other:?}"),
    }
}

#[test]
fn maze_hint_shows_the_maze() {
    let maze = generate(4).unwrap();
    let rows = maze.border_rows();
    let rule = Condition::labyrinth(maze, (1, 2), (3, 0));
    match rule.hint() {
        Hint::Maze { caption, legend, borders, start, goal } => {
            assert_eq!(
                caption,
                "Password must contain the optimal solution to this maze, from green to red."
            );
            assert_eq!(legend, "R is up, D is right, L is down, U is left.");
            assert_eq!(borders, rows);
            assert_eq!(start, (1, 2));
            assert_eq!(goal, (3, 0));
        }
        other => panic!("unexpected hint {other:?}"),
    }
}

#[test]
fn class_words_and_scores() {
    assert_eq!(class_words(CharClass::Digit), " digits.");
    let rows = score_guesses(&vec!["abab".to_string()], &"aabb".to_string());
    assert_eq!(rows[0].len(), 4);
}

#[test]
fn lexicon_is_as_the_conditions_need_it() {
    let words = word_list();
    assert!(words.len() >= GUESS_COUNT);
    for word in &words {
        assert_eq!(word.chars().count(), WORD_LENGTH);
        assert_eq!(word.to_lowercase(), *word);
    }
    let lines = anthem_lines();
    assert!(lines.contains(&"Our home is girt by sea;".to_string()));
    assert!(lines.iter().any(|line| !line.contains("Australia")));
    assert!(lines.iter().all(|line| !line.is_empty()));
}

#[test]
fn catalogue_is_in_its_fixed_order() {
    let list = catalogue(parameters());
    assert_eq!(list.len(), CATALOGUE_LENGTH);
    assert!(matches!(list[0], Condition::MinLength { min: 8 }));
    assert!(matches!(&list[1], Condition::Forbids { phrase, folded: true, .. } if phrase == "bean"));
    assert!(matches!(list[2], Condition::AtLeast { class: CharClass::Uppercase, min: 3 }));
    assert!(matches!(list[3], Condition::AtLeast { class: CharClass::Digit, min: 4 }));
    assert!(matches!(&list[4], Condition::RequiresOneOf { phrases, .. } if *phrases == anthem_lines()));
    assert!(matches!(&list[5], Condition::Forbids { phrase, folded: false, .. } if phrase == "Australia"));
    assert!(matches!(&list[6], Condition::Requires { phrase, folded: false, .. } if phrase == "\u{1F6A1}"));
    assert!(matches!(&list[7], Condition::Requires { phrase, folded: true, .. } if phrase == "\u{F8FF}"));
    assert!(matches!(&list[8], Condition::Wordle { answer, guesses } if answer == "crane" && guesses.len() == 5));
    assert!(matches!(list[9], Condition::OwnLength));
    assert!(matches!(list[10], Condition::AuxiliaryReversed));
    assert!(matches!(list[11], Condition::DigitSum { total: 60 }));
    assert!(matches!(&list[12], Condition::Requires { phrase, folded: true, .. } if phrase == "blue"));
    assert!(matches!(list[13], Condition::SecretColour { red: 0x12, green: 0xab, blue: 0x0f }));
    assert!(matches!(list[14], Condition::Exactly { class: CharClass::Lowercase, count: 50 }));
    assert!(matches!(&list[15], Condition::Riddle { answer, .. } if answer == "idiot"));
    assert!(matches!(&list[16], Condition::RequiresEach { symbols, .. } if symbols.len() == 5));
    assert!(matches!(&list[17], Condition::Labyrinth { start: (0, 0), goal: (19, 19), .. }));
    assert!(matches!(list[18], Condition::Clock));
    assert!(matches!(list[19], Condition::Palindrome));
}

#[test]
fn catalogue_hints_can_all_be_made() {
    let list = catalogue(parameters());
    let texts: Vec<String> = list.iter().map(|rule| text_of_hint(&rule.hint()).to_string()).collect();
    assert_eq!(texts[0], "Password must contain at least eight characters.");
    assert_eq!(texts[1], "Password may not contain the phrase 'bean'.");
    assert_eq!(texts[2], "Password must contain at least three uppercase characters.");
    assert_eq!(texts[3], "Password must contain at least four digits.");
    assert_eq!(
        texts[4],
        "Password must contain a correctly punctuated line from the Australian national anthem."
    );
    assert_eq!(texts[5], "Password may not contain the phrase 'Australia'.");
    assert_eq!(texts[6], "Password must contain the aerial tramway emoji.");
    assert_eq!(texts[7], "Password must contain the Apple logo.");
    assert_eq!(texts[11], "Digits in password must sum to sixty.");
    assert_eq!(texts[12], "Password must contain my favourite colour.");
    assert_eq!(texts[14], "Password must contain exactly fifty lowercase characters.");
    assert_eq!(texts[16], "Password must be ethnically diverse. \u{1F44D}");
}

#[test]
fn drawn_parameters_lie_in_their_ranges() {
    for _ in 0..20 {
        let drawn = Parameters::draw();
        assert!((8..=12).contains(&drawn.min_length));
        assert!((3..=6).contains(&drawn.uppercase));
        assert!((3..=6).contains(&drawn.digits));
        assert!((58..=68).contains(&drawn.digit_sum));
        assert!((46..=58).contains(&drawn.lowercase));
        let words = word_list();
        assert!(words.contains(&drawn.answer.as_str()));
        assert_eq!(drawn.guesses.len(), GUESS_COUNT);
        for (i, guess) in drawn.guesses.iter().enumerate() {
            assert!(words.contains(&guess.as_str()));
            assert!(!drawn.guesses[..i].contains(guess));
        }
        assert_eq!(drawn.maze.size(), MAZE_SIZE);
        assert!(drawn.start.0 < MAZE_SIZE && drawn.start.1 < MAZE_SIZE);
        assert!(drawn.goal.0 < MAZE_SIZE && drawn.goal.1 < MAZE_SIZE);
    }
}

#[test]
fn drawn_numbers_vary() {
    let draws: Vec<Parameters> = (0..50).map(|_| Parameters::draw()).collect();
    let first = &draws[0];
    assert!(draws.iter().any(|next| next.uppercase != first.uppercase));
    assert!(draws.iter().any(|next| next.digit_sum != first.digit_sum));
    assert!(draws
        .iter()
        .any(|next| (next.red, next.green, next.blue) != (first.red, first.green, first.blue)));
}

#[test]
fn drawn_answers_and_cells_vary() {
    let draws: Vec<Parameters> = (0..50).map(|_| Parameters::draw()).collect();
    let first = &draws[0];
    assert!(draws.iter().any(|next| next.answer != first.answer));
    assert!(draws.iter().any(|next| next.start != first.start));
    assert!(draws.iter().any(|next| next.goal != first.goal));
}

#[test]
fn drawn_guesses_are_shuffled() {
    let listed: Vec<String> = word_list().iter().take(GUESS_COUNT).map(|w| w.to_string()).collect();
    let draws: Vec<Parameters> = (0..20).map(|_| Parameters::draw()).collect();
    assert!(draws.iter().any(|next| next.guesses != listed));
}

#[test]
fn conditions_of_a_session() {
    let list = conditions();
    assert_eq!(list.len(), CATALOGUE_LENGTH);
    assert!(matches!(list[0], Condition::MinLength { .. }));
    assert!(matches!(list[19], Condition::Palindrome));
    for rule in &list {
        let _ = rule.hint();
    }
}

#[test]
fn all_cells_lists_the_grid_row_by_row() {
    assert_eq!(all_cells(2), vec![(0, 0), (1, 0), (0, 1), (1, 1)]);
    assert_eq!(all_cells(0), Vec::new());
    assert_eq!(all_cells(20).len(), 400);
}
