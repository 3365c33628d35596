use markov_brain::brain::{Brain, BrainError};
use markov_brain::tokenizer::tokenize;

fn ids(brain: &Brain, tokens: &[&str]) -> Vec<usize> {
    tokens
        .iter()
        .map(|t| brain.vocabulary().lookup(t).expect("token was trained"))
        .collect()
}

#[test]
fn training_accumulates_frequencies() {
    let mut brain = Brain::new();
    brain.train("a b a c a b");
    // Whitespace is a token, so the order-one context after "a" is always the
    // space; the distribution over the following word lives at order two.
    let a_space = ids(&brain, &["a", " "]);
    let b_space = ids(&brain, &["b", " "]);
    let c_space = ids(&brain, &["c", " "]);
    let [a, b, c] = ids(&brain, &["a", "b", "c"])[..] else {
        panic!()
    };
    let space = brain.vocabulary().lookup(" ").unwrap();
    let table = brain.table();
    assert_eq!(table.count_for(&a_space, b), 2);
    assert_eq!(table.count_for(&a_space, c), 1);
    assert_eq!(table.count_for(&b_space, a), 1);
    assert_eq!(table.count_for(&c_space, a), 1);
    assert_eq!(table.count_for(&vec![a], space), 3);
    assert_eq!(table.count_for(&vec![b], space), 1);
    assert_eq!(table.count_for(&vec![a_space[1]], a), 2);
}

#[test]
fn training_twice_keeps_accumulating() {
    let mut brain = Brain::new();
    brain.train("a b");
    brain.train("a b");
    let [a, b] = ids(&brain, &["a", "b"])[..] else {
        panic!()
    };
    let space = brain.vocabulary().lookup(" ").unwrap();
    assert_eq!(brain.table().count_for(&vec![a], space), 2);
    assert_eq!(brain.table().count_for(&vec![a, space], b), 2);
}

#[test]
fn training_on_empty_text_is_a_noop() {
    let mut brain = Brain::new();
    brain.train("");
    assert_eq!(brain.vocabulary().len(), 0);
    assert_eq!(brain.prompt("", 10), Ok(String::new()));
}

#[test]
fn unknown_prompt_token_fails_without_output() {
    let mut brain = Brain::new();
    brain.train("a b c");
    assert_eq!(brain.prompt("z", 10), Err(BrainError::UnknownToken));
    assert_eq!(brain.prompt("a z", 10), Err(BrainError::UnknownToken));
    assert_eq!(
        brain.prompt_with_draws("z", 10, &vec![0, 0, 0]),
        Err(BrainError::UnknownToken)
    );
}

#[test]
fn deterministic_chain_is_continued_exactly() {
    let mut brain = Brain::new();
    brain.train("a b c d e");
    // Every recorded context has exactly one continuation, so any draw
    // sequence produces the same text.
    assert_eq!(brain.prompt("a", 5).unwrap(), "a b c");
    assert_eq!(brain.prompt("a b", 7).unwrap(), "a b c d");
    // Generation stops once no context of the tail was ever recorded.
    assert_eq!(brain.prompt("a", 100).unwrap(), "a b c d e");
}

#[test]
fn generation_never_exceeds_the_target_length() {
    let mut brain = Brain::new();
    brain.train("a b c d e f g h");
    for target in 0..12usize {
        let out = brain.prompt("a b", target).unwrap();
        let produced = tokenize(&out).len();
        assert!(produced <= target.max(3));
        assert!(produced >= 3);
        assert!(out.starts_with("a b"));
    }
}

#[test]
fn target_shorter_than_prompt_returns_the_prompt() {
    let mut brain = Brain::new();
    brain.train("a b c");
    assert_eq!(brain.prompt("a b c", 0).unwrap(), "a b c");
    assert_eq!(brain.prompt("a b c", 2).unwrap(), "a b c");
}

#[test]
fn longer_contexts_win_over_shorter_ones() {
    let mut brain = Brain::new();
    // After the space, the order-one context is ambiguous ("c" or "e"), but
    // the order-two context ("ba", " ") or ("da", " ") decides uniquely.
    brain.train("ba c");
    brain.train("da e");
    for _ in 0..25 {
        assert_eq!(brain.prompt("ba ", 3).unwrap(), "ba c");
        assert_eq!(brain.prompt("da ", 3).unwrap(), "da e");
    }
}

#[test]
fn fixed_draws_make_generation_reproducible() {
    let mut brain = Brain::new();
    brain.train("a b a c a b a d a b");
    let draws: Vec<u64> = vec![3, 141, 59, 26, 53, 58, 97, 93, 23, 84];
    let first = brain.prompt_with_draws("a", 9, &draws).unwrap();
    let second = brain.prompt_with_draws("a", 9, &draws).unwrap();
    assert_eq!(first, second);
    assert!(first.starts_with('a'));
}

#[test]
fn exhausted_draws_stop_generation() {
    let mut brain = Brain::new();
    brain.train("a b c d e");
    let out = brain.prompt_with_draws("a", 100, &vec![0]).unwrap();
    assert_eq!(out, "a ");
    let none = brain.prompt_with_draws("a", 100, &vec![]).unwrap();
    assert_eq!(none, "a");
}

#[test]
fn generated_text_reuses_trained_tokens_only() {
    let mut brain = Brain::new();
    brain.train("one two three two one");
    let out = brain.prompt("one", 20).unwrap();
    for token in tokenize(&out) {
        assert!(brain.vocabulary().lookup(&token).is_some());
    }
}
