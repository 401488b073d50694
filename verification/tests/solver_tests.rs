use wordle::solver::score;
use wordle::words_from_reader;
use wordle::Char;
use wordle::CharSet;
use wordle::Constraints;
use wordle::Guess;
use wordle::ParseError;
use wordle::Word;
use wordle::Words;

fn word(s: &str) -> Word {
    Word::from_str(s).unwrap()
}

fn pool(words: &[&str]) -> Words {
    Words::from_vec(words.iter().map(|s| word(s)).collect())
}

#[test]
fn constraints_tighten_monotonically() {
    // After add, every per-position set is a subset of the prior one and
    // the must-contain set a superset, for a guess drawn from the pool.
    let mut c = Constraints::new();
    let before: Vec<CharSet> = (0..5).map(|i| c.position_at(i)).collect();
    let g = Guess::new(&word("crane"), &word("slate"));
    c.add(&g);
    for i in 0..5 {
        let after = c.position_at(i);
        for l in 0..26u8 {
            let ch = Char::from_u8(l);
            if after.contains(ch) {
                assert!(before[i].contains(ch));
            }
        }
    }
    // A yellow letter lands in the must-contain set and leaves its
    // position; green pins its position.
    let mut c2 = Constraints::new();
    let g2 = Guess::new(&word("adieu"), &word("drain"));
    // a: yellow, d: yellow, i: yellow (third letter of drain), e: black, u: black
    c2.add(&g2);
    assert!(c2.must_contains(Char::from_char('a')));
    assert!(c2.must_contains(Char::from_char('d')));
    assert!(!c2.position_at(0).contains(Char::from_char('a')));
    assert!(!c2.position_at(0).contains(Char::from_char('e')));
    assert!(c2.is_satisfied_by(&word("drain")));
    assert!(!c2.is_satisfied_by(&word("adieu")));
}

#[test]
fn solution_survives_filtering() {
    // The true solution stays in the pool through every round for
    // distinct-letter guesses.
    let mut c = Constraints::new();
    let solution = word("pling");
    for g in ["crate", "sound", "pling"] {
        let guess = Guess::new(&word(g), &solution);
        c.add(&guess);
        assert!(c.is_satisfied_by(&solution));
        assert!(guess.matches(&solution));
    }
}

#[test]
fn greedy_solver_two_rounds() {
    // Disjoint-alphabet pool: the first guess is all gray, filtering
    // leaves only the solution, and the second guess wins.
    let words = pool(&["abcde", "fghij"]);
    let sol = wordle::solve(&words, &word("fghij")).expect("solvable");
    assert_eq!(sol.number_of_guesses(), 2);
    let gs = sol.guesses();
    assert_eq!(gs[0].word().to_string(), "abcde");
    assert_eq!(gs[0].feedback().to_ascii_string(), "bbbbb");
    assert_eq!(gs[1].word().to_string(), "fghij");
    assert!(gs[1].is_all_green());
}

#[test]
fn greedy_solver_finds_each_seed_word() {
    let list = ["crate", "pling", "shunt", "bawdy"];
    for target in list {
        let words = pool(&list);
        let sol = wordle::solve(&words, &word(target)).expect("solvable");
        let gs = sol.guesses();
        assert!(gs.last().unwrap().is_all_green());
        assert_eq!(gs.last().unwrap().word().to_string(), target);
        assert!(sol.number_of_guesses() <= list.len());
    }
}

#[test]
fn greedy_solver_empty_pool_fails() {
    let words = pool(&[]);
    assert!(wordle::solve(&words, &word("fghij")).is_none());
}

#[test]
fn score_counts_shared_distinct_letters() {
    let all = CharSet::with_all();
    assert_eq!(score(&word("abcde"), &all), 5);
    // Repeated letters count once.
    assert_eq!(score(&word("sassy"), &all), 3);
    let mut vowels = CharSet::empty();
    for v in ['a', 'e', 'i', 'o', 'u'] {
        vowels.insert(Char::from_char(v));
    }
    assert_eq!(score(&word("adieu"), &vowels), 4);
    assert_eq!(score(&word("crypt"), &vowels), 0);
}

#[test]
fn pool_ranking_is_stable_descending() {
    let mut vowels = CharSet::empty();
    for v in ['a', 'e', 'i', 'o', 'u'] {
        vowels.insert(Char::from_char(v));
    }
    // Scores against vowels: adieu=4, crypt=0, oozes=2, audio=4.
    let mut words = pool(&["crypt", "adieu", "oozes", "audio"]);
    words.rank(&vowels);
    let ranked: Vec<String> = words.words().iter().map(|w| w.to_string()).collect();
    // Descending score; the tied pair keeps its original order.
    assert_eq!(ranked, ["adieu", "audio", "oozes", "crypt"]);
}

#[test]
fn unique_chars_picks_widest_position() {
    let mut c = Constraints::new();
    // Green 'a' at position 0 narrows that position to one letter; the
    // other positions keep larger sets, so the heuristic avoids it.
    let g = Guess::new(&word("aaaaa"), &word("aline"));
    c.add(&g);
    let u = c.unique_chars();
    assert!(u.len() > 1);
}

#[test]
fn words_from_reader_parses_lines() {
    let lines = vec!["crate".to_string(), "pling".to_string()];
    let ws = words_from_reader(&lines).unwrap();
    assert_eq!(ws.len(), 2);
    assert_eq!(ws[0].to_string(), "crate");
    let bad = vec!["crate".to_string(), "nope".to_string()];
    assert_eq!(
        words_from_reader(&bad).unwrap_err(),
        ParseError::InvalidWordLength
    );
}
