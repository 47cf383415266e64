use password_puzzle::carver::generate;
use password_puzzle::catalogue::{catalogue, Parameters, MAZE_SIZE};
use password_puzzle::conditions::{Condition, Hint};
use password_puzzle::reading::Reading;
use password_puzzle::session::{first_failing, Evaluation, Session};
use password_puzzle::text::CharClass;

fn fixed_parameters() -> Parameters {
    Parameters {
        min_length: 8,
        uppercase: 3,
        digits: 3,
        answer: "crane".to_string(),
        guesses: vec![
            "slate".to_string(),
            "house".to_string(),
            "plant".to_string(),
            "eagle".to_string(),
            "ocean".to_string(),
        ],
        digit_sum: 60,
        red: 0x12,
        green: 0xab,
        blue: 0x0f,
        lowercase: 50,
        maze: generate(MAZE_SIZE).unwrap(),
        start: (0, 0),
        goal: (19, 19),
    }
}

fn fixed_session() -> Session {
    Session::new(catalogue(fixed_parameters()))
}

fn small_session() -> Session {
    Session::new(vec![
        Condition::MinLength { min: 3 },
        Condition::AtLeast { class: CharClass::Uppercase, min: 1 },
        Condition::AtLeast { class: CharClass::Digit, min: 1 },
        Condition::Palindrome,
    ])
}

/// A text that meets the first eleven conditions of the fixed catalogue:
/// it holds its own length in bytes, which is found by trying.
fn text_up_to_the_digit_sum() -> String {
    let base = "ABC Our home is girt by sea; \u{1F6A1} \u{F8FF} crane 12 ";
    for n in 1..1000usize {
        let text = format!("{base}{n}");
        if text.len() == n {
            return text;
        }
    }
    panic!("no length fits");
}

#[test]
fn new_session_has_nothing_discovered() {
    let session = small_session();
    assert_eq!(session.conditions().len(), 4);
    assert_eq!(session.discovered(), &vec![false; 4]);
    assert_eq!(session.primary(), None);
}

#[test]
fn started_session_has_the_whole_catalogue() {
    let session = Session::start();
    assert_eq!(session.conditions().len(), 20);
    assert_eq!(session.discovered(), &vec![false; 20]);
    assert_eq!(session.primary(), None);
}

#[test]
fn empty_text_fails_the_first_condition() {
    let mut session = fixed_session();
    let evaluation = session.evaluate_at("", "", "12:00");
    assert_eq!(evaluation.primary, Some(0));
    assert!(evaluation.failing.is_empty());
    assert!(matches!(
        session.hint(0),
        Some(Hint::Text { text }) if text == "Password must contain at least eight characters."
    ));
}

#[test]
fn empty_text_fails_the_first_condition_of_any_session() {
    for _ in 0..5 {
        let mut session = Session::start();
        let evaluation = session.evaluate("", "whoever");
        assert_eq!(evaluation.primary, Some(0));
        assert_eq!(session.primary(), Some(0));
    }
}

#[test]
fn primary_failure_is_the_first_violated_condition() {
    let mut session = small_session();
    assert_eq!(session.evaluate_at("", "", "0:00").primary, Some(0));
    assert_eq!(session.evaluate_at("abc", "", "0:00").primary, Some(1));
    assert_eq!(session.evaluate_at("Abc", "", "0:00").primary, Some(2));
    assert_eq!(session.evaluate_at("Ab1", "", "0:00").primary, Some(3));
    assert_eq!(session.evaluate_at("1A1", "", "0:00").primary, None);
}

#[test]
fn digit_sum_is_the_primary_failure_with_its_number_spelled() {
    let mut session = fixed_session();
    let text = text_up_to_the_digit_sum();
    let sum: u32 = text.chars().filter_map(|c| c.to_digit(10)).sum();
    assert_ne!(sum, 60);
    let evaluation = session.evaluate_at(&text, "", "12:00");
    assert_eq!(evaluation.primary, Some(11));
    assert!(matches!(
        session.hint(11),
        Some(Hint::Text { text }) if text == "Digits in password must sum to sixty."
    ));
}

#[test]
fn each_condition_before_the_digit_sum_matters() {
    let text = text_up_to_the_digit_sum();
    let mut session = fixed_session();
    assert_eq!(session.evaluate_at(&text, "", "12:00").primary, Some(11));
    assert_eq!(session.evaluate_at(&text.replace("crane", "crate"), "", "12:00").primary, Some(8));
    assert_eq!(session.evaluate_at(&text.replace('\u{F8FF}', "x"), "", "12:00").primary, Some(7));
    assert_eq!(session.evaluate_at(&text.replace("sea;", "sea,"), "", "12:00").primary, Some(4));
    assert_eq!(session.evaluate_at(&text, "bob", "12:00").primary, Some(10));
    assert_eq!(session.evaluate_at(&format!("{text}!"), "", "12:00").primary, Some(9));
}

#[test]
fn secret_colour_passes_and_fails_by_one_digit() {
    let rule = Condition::SecretColour { red: 0x12, green: 0xab, blue: 0x0f };
    let mut session = Session::new(vec![rule]);
    assert_eq!(session.evaluate_at("my 12ab0f", "", "0:00").primary, None);
    assert_eq!(session.evaluate_at("my 12ab0e", "", "0:00").primary, Some(0));
    assert_eq!(session.evaluate_at("my 12ab0f", "", "0:00").primary, None);
}

#[test]
fn repeated_evaluation_gives_the_same_report() {
    let mut session = fixed_session();
    let text = text_up_to_the_digit_sum();
    let first = session.evaluate_at(&text, "", "12:00");
    let flags = session.discovered().clone();
    for _ in 0..3 {
        let again = session.evaluate_at(&text, "", "12:00");
        assert_eq!(again.primary, first.primary);
        assert_eq!(again.failing, first.failing);
        assert_eq!(session.discovered(), &flags);
    }
}

#[test]
fn discovered_flags_are_never_taken_back() {
    let mut session = small_session();
    let texts = ["", "abc", "Abc", "Ab1", "1A1", "", "zzz", "1A1", "Z"];
    let mut seen = vec![false; 4];
    for text in texts {
        let evaluation = session.evaluate_at(text, "", "0:00");
        if let Some(i) = evaluation.primary {
            seen[i] = true;
        }
        assert_eq!(session.discovered(), &seen);
    }
    assert_eq!(seen, vec![true, true, true, true]);
}

#[test]
fn secondary_hints_are_the_discovered_failures_in_order() {
    let mut session = small_session();
    // Discover the conditions one after the other.
    assert_eq!(session.evaluate_at("", "", "0:00").primary, Some(0));
    assert_eq!(session.evaluate_at("abc", "", "0:00").primary, Some(1));
    assert_eq!(session.evaluate_at("Abc", "", "0:00").primary, Some(2));
    assert_eq!(session.evaluate_at("Ab1", "", "0:00").primary, Some(3));
    // Now every violated condition but the primary one is listed.
    let evaluation = session.evaluate_at("", "", "0:00");
    assert_eq!(evaluation.primary, Some(0));
    assert_eq!(evaluation.failing, vec![1, 2]);
    let evaluation = session.evaluate_at("ab", "", "0:00");
    assert_eq!(evaluation.primary, Some(0));
    assert_eq!(evaluation.failing, vec![1, 2, 3]);
    let evaluation = session.evaluate_at("abcd", "", "0:00");
    assert_eq!(evaluation.primary, Some(1));
    assert_eq!(evaluation.failing, vec![2, 3]);
    let evaluation = session.evaluate_at("1A1", "", "0:00");
    assert_eq!(evaluation.primary, None);
    assert!(evaluation.failing.is_empty());
}

#[test]
fn undiscovered_failures_are_not_listed() {
    let mut session = small_session();
    let evaluation = session.evaluate_at("ab", "", "0:00");
    assert_eq!(evaluation.primary, Some(0));
    assert!(evaluation.failing.is_empty());
    assert_eq!(session.discovered(), &vec![true, false, false, false]);
}

#[test]
fn hints_are_shown_only_for_a_text() {
    let evaluation = Evaluation { primary: Some(2), failing: vec![0, 5] };
    assert_eq!(evaluation.hints_to_show("x"), vec![2, 0, 5]);
    assert_eq!(evaluation.hints_to_show(""), Vec::<usize>::new());
    let clean = Evaluation { primary: None, failing: Vec::new() };
    assert_eq!(clean.hints_to_show("x"), Vec::<usize>::new());
}

#[test]
fn hint_of_a_place_outside_the_catalogue() {
    let session = small_session();
    assert!(session.hint(3).is_some());
    assert!(session.hint(4).is_none());
}

#[test]
fn first_failing_reads_the_snapshot() {
    let list = vec![Condition::OwnLength, Condition::Clock];
    let reading = Reading::at("abc4 7:30", "", "7:31");
    assert_eq!(first_failing(&list, &reading), Some(0));
    let reading = Reading::at("ab 9 7:30", "", "7:31");
    assert_eq!(first_failing(&list, &reading), Some(1));
    let reading = Reading::at("ab 9 7:31", "", "7:31");
    assert_eq!(first_failing(&list, &reading), None);
}

#[test]
fn tick_reports_a_change_of_the_primary_failure() {
    let mut session = Session::new(vec![Condition::MinLength { min: 1 }, Condition::Clock]);
    let at = |clock: &str| Reading::at("it is 7:30", "", clock);
    // Nothing was evaluated before: the failure is new.
    let tick = session.tick_on(&at("7:29"));
    assert_eq!(tick.evaluation.primary, Some(1));
    assert!(tick.invalidated);
    let tick = session.tick_on(&at("7:29"));
    assert_eq!(tick.evaluation.primary, Some(1));
    assert!(!tick.invalidated);
    // The minute comes: the failure goes.
    let tick = session.tick_on(&at("7:30"));
    assert_eq!(tick.evaluation.primary, None);
    assert!(tick.invalidated);
    let tick = session.tick_on(&at("7:30"));
    assert!(!tick.invalidated);
    // The minute passes: the text has become invalid without a change.
    let tick = session.tick_on(&at("7:31"));
    assert_eq!(tick.evaluation.primary, Some(1));
    assert!(tick.invalidated);
    assert_eq!(session.discovered(), &vec![false, true]);
}

#[test]
fn tick_reports_another_primary_failure() {
    let mut session = small_session();
    session.evaluate_at("abc", "", "0:00");
    let tick = session.tick_on(&Reading::at("Abc", "", "0:00"));
    assert_eq!(tick.evaluation.primary, Some(2));
    assert!(tick.invalidated);
}

#[test]
fn tick_now_runs_a_pass() {
    let mut session = small_session();
    let tick = session.tick("", "");
    assert_eq!(tick.evaluation.primary, Some(0));
    assert!(tick.invalidated);
    let tick = session.tick("", "");
    assert!(!tick.invalidated);
}
