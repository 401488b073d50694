use wordle::decision_tree::from_strategy;
use wordle::decision_tree::Node;
use wordle::Feedback;
use wordle::Word;

fn word(s: &str) -> Word {
    Word::from_str(s).unwrap()
}

fn words(list: &[&str]) -> Vec<Word> {
    list.iter().map(|s| word(s)).collect()
}

/// Replays the tree against `solution`; returns how many guesses it
/// took, or `None` on a lookup miss or when the budget runs out.
fn replay(root: &Node, solution: &Word) -> Option<usize> {
    let mut node = root;
    for round in 1..=5 {
        let fb = Feedback::from_word(node.word(), solution);
        if fb.is_all_green() {
            return Some(round);
        }
        node = node.next(&fb)?;
    }
    None
}

#[test]
fn build_resolves_every_solution_in_budget() {
    // Four pairwise-distinguishable words: the tree must reach each of
    // them by replaying honest feedback from the root.
    let list = ["abcde", "fghij", "klmno", "pqrst"];
    let mut guesses = words(&list);
    let solutions = words(&list);
    let tree = Node::build(&mut guesses, &solutions, 0).expect("feasible");
    for target in list {
        let rounds = replay(&tree, &word(target)).expect("tree resolves target");
        assert!(rounds <= 5);
    }
}

#[test]
fn build_single_word_is_leaf() {
    let mut guesses = words(&["abcde"]);
    let solutions = words(&["abcde"]);
    let tree = Node::build(&mut guesses, &solutions, 0).expect("feasible");
    assert_eq!(tree.word().to_string(), "abcde");
    let all_gray = Feedback::from_str("bbbbb").unwrap();
    assert!(tree.next(&all_gray).is_none());
}

#[test]
fn build_exhausted_budget_fails() {
    let mut guesses = words(&["abcde", "fghij"]);
    let solutions = words(&["abcde", "fghij"]);
    assert!(Node::build(&mut guesses, &solutions, 5).is_none());
}

#[test]
fn build_depth_budget_boundary() {
    // Three near-identical words force a chain of single-word splits:
    // feasible with three rounds of headroom, infeasible with two.
    let list = ["aaaab", "aaaac", "aaaad"];
    let mut g1 = words(&list);
    let sols = words(&list);
    let tree = Node::build(&mut g1, &sols, 2).expect("three rounds left");
    for target in list {
        assert!(replay(&tree, &word(target)).is_some());
    }
    let mut g2 = words(&list);
    assert!(Node::build(&mut g2, &sols, 3).is_none());
}

#[test]
fn build_resolves_overlapping_pool() {
    // Anagrams: every pair is distinguished only by letter positions.
    let list = ["crate", "trace", "caret", "react"];
    let mut guesses = words(&list);
    let solutions = words(&list);
    let tree = Node::build(&mut guesses, &solutions, 0).expect("feasible");
    for target in list {
        assert!(replay(&tree, &word(target)).is_some());
    }
}

#[test]
fn player_reports_lookup_miss() {
    let list = ["abcde", "fghij"];
    let mut guesses = words(&list);
    let solutions = words(&list);
    let tree = Node::build(&mut guesses, &solutions, 0).expect("feasible");
    // A feedback pattern no solution of the build set produces.
    let odd = Feedback::from_str("gybgy").unwrap();
    assert!(tree.next(&odd).is_none());
}

#[test]
fn strategy_import_splices_compressed_lines() {
    // Line two is prefix-compressed: its leading whitespace defers to
    // line one up to the splice column.
    let line1 = "abcde bbbbb  fghij       ".to_string();
    let line2 = "      ybbbb  klmno       ".to_string();
    let uncompressed2 = "abcde ybbbb  klmno       ".to_string();

    let compressed = from_strategy(&vec![line1.clone(), line2]).expect("parses");
    let plain = from_strategy(&vec![line1, uncompressed2]).expect("parses");

    for tree in [&compressed, &plain] {
        assert_eq!(tree.word().to_string(), "abcde");
        let gray = Feedback::from_str("bbbbb").unwrap();
        let child = tree.next(&gray).expect("child for bbbbb");
        assert_eq!(child.word().to_string(), "fghij");
        let other = Feedback::from_str("ybbbb").unwrap();
        let child2 = tree.next(&other).expect("child for ybbbb");
        assert_eq!(child2.word().to_string(), "klmno");
    }
}

#[test]
fn splicing_a_path_twice_equals_once() {
    let gs = vec![wordle::Guess::from_feedback_and_word(
        Feedback::from_str("bbbbb").unwrap(),
        word("fghij"),
    )];
    let once = Node::new(&word("abcde")).add_guesses(&gs, 0);
    let twice = Node::new(&word("abcde")).add_guesses(&gs, 0).add_guesses(&gs, 0);
    for tree in [&once, &twice] {
        assert_eq!(tree.word().to_string(), "abcde");
        assert_eq!(tree.children().unwrap().len(), 1);
        let fb = Feedback::from_str("bbbbb").unwrap();
        assert_eq!(tree.next(&fb).unwrap().word().to_string(), "fghij");
    }
}

#[test]
fn strategy_import_rejects_empty_input() {
    assert!(from_strategy(&Vec::new()).is_err());
}

#[test]
fn strategy_import_rejects_malformed_lines() {
    // A first line too short for even one record.
    assert!(from_strategy(&vec!["abcde bbbbb".to_string()]).is_err());
    // A continuation whose whitespace prefix overruns the previous line.
    let line1 = "abcde bbbbb  fghij       ".to_string();
    let long_ws = " ".repeat(30) + "x";
    assert!(from_strategy(&vec![line1.clone(), long_ws]).is_err());
    // A bad directive code inside a record.
    let bad = "abcde bqbbb  fghij       ".to_string();
    assert!(from_strategy(&vec![bad]).is_err());
}

#[test]
fn strategy_import_two_records_per_line() {
    // Two records on one line form a two-step path from the root.
    let line = "abcde bbbbb  fghij ggbbb  pqrst       ".to_string();
    let tree = from_strategy(&vec![line]).expect("parses");
    let gray = Feedback::from_str("bbbbb").unwrap();
    let mid = tree.next(&gray).expect("first child");
    assert_eq!(mid.word().to_string(), "fghij");
    let two = Feedback::from_str("ggbbb").unwrap();
    let leaf = mid.next(&two).expect("second child");
    assert_eq!(leaf.word().to_string(), "pqrst");
}
