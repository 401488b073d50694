use wordle::Directive;
use wordle::Feedback;
use wordle::Guess;
use wordle::ParseError;
use wordle::Word;

fn word(s: &str) -> Word {
    Word::from_str(s).unwrap()
}

#[test]
fn all_green_exactly_for_equal_words() {
    let g = word("crane");
    assert!(Feedback::from_word(&g, &word("crane")).is_all_green());
    assert!(!Feedback::from_word(&g, &word("crate")).is_all_green());
    assert!(!Feedback::from_word(&g, &word("zzzzz")).is_all_green());
}

#[test]
fn duplicate_letters_not_over_credited() {
    // 's' appears twice in the guess but once in the solution: only the
    // exact match at position 0 is credited, the other 's' stays black.
    let fb = Feedback::from_word(&word("sassy"), &word("silly"));
    assert_eq!(fb.to_ascii_string(), "gbbbg");
}

#[test]
fn yellow_consumes_leftmost_unresolved() {
    // Both 'o's of the guess hunt the single 'o' of the solution: only
    // the first non-green one is credited yellow.
    let fb = Feedback::from_word(&word("odors"), &word("movie"));
    assert_eq!(fb.at(0), Directive::Yellow);
    assert_eq!(fb.at(2), Directive::Black);
    let fb2 = Feedback::from_word(&word("abbey"), &word("babes"));
    assert_eq!(fb2.to_ascii_string(), "yyggb");
}

#[test]
fn feedback_code_round_trip() {
    let codes = ["ggggg", "bbbbb", "yyyyy", "gybgy", "bgybg"];
    for code in codes {
        let fb = Feedback::from_str(code).unwrap();
        assert_eq!(fb.to_ascii_string(), code);
    }
    // Upper-case codes parse to the same feedback and render lowercase.
    let upper = Feedback::from_str("GYBGY").unwrap();
    assert_eq!(upper.to_ascii_string(), "gybgy");
}

#[test]
fn feedback_parse_errors() {
    assert_eq!(
        Feedback::from_str("gyb").unwrap_err(),
        ParseError::InvalidFeedbackLength
    );
    assert_eq!(
        Feedback::from_str("gybgq").unwrap_err(),
        ParseError::InvalidDirectiveCode
    );
}

#[test]
fn word_parse_errors() {
    assert_eq!(
        Word::from_str("abcd").unwrap_err(),
        ParseError::InvalidWordLength
    );
    assert_eq!(
        Word::from_str("abcdef").unwrap_err(),
        ParseError::InvalidWordLength
    );
    assert_eq!(
        Word::from_str("abcd!").unwrap_err(),
        ParseError::InvalidSymbol
    );
    assert_eq!(
        Word::from_str("Abcde").unwrap_err(),
        ParseError::InvalidSymbol
    );
}

#[test]
fn word_round_trip_and_contains() {
    let w = word("crane");
    assert_eq!(w.to_string(), "crane");
    assert!(w.contains(wordle::Char::from_char('c')));
    assert!(!w.contains(wordle::Char::from_char('z')));
    assert_eq!(w.at(0).char(), 'c');
    assert_eq!(w.at(4).char(), 'e');
}

#[test]
fn guess_matches_keeps_consistent_candidates() {
    let g = Guess::new(&word("crane"), &word("slate"));
    // 'slate' itself is always consistent with its own feedback when the
    // guess has no repeated letters.
    assert!(g.matches(&word("slate")));
    // 'crane' got a black 'c', so candidates holding 'c' are rejected.
    assert!(!g.matches(&word("crawl")));
    let emoji = g.feedback().to_string();
    assert_eq!(emoji.chars().count(), 5);
}
