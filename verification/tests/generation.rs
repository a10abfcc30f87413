use markov_chain::generate::MAX_STEPS;
use markov_chain::words::join_words;
use markov_chain::table::MarkovChain;
use markov_chain::token::Token;

fn word(s: &str) -> Token {
    Token::Word(s.to_string())
}

fn said(next: Option<Token>) -> Option<String> {
    match next {
        Some(Token::Word(w)) => Some(w),
        _ => None,
    }
}

#[test]
fn fresh_table_generates_nothing() {
    let chain = MarkovChain::default();
    assert_eq!(chain.generate(), None);
    assert_eq!(chain.generate_with(&vec![0, 1, 2]), None);
    assert_eq!(chain.generate_with(&vec![]), None);
}

#[test]
fn single_path_is_always_generated() {
    let mut chain = MarkovChain::default();
    chain.add("a b");
    for _ in 0..100 {
        assert_eq!(chain.generate(), Some("a b".to_string()));
    }
    assert_eq!(chain.generate_with(&vec![7, 11, 13]), Some("a b".to_string()));
    assert_eq!(chain.generate_with(&vec![0, 0, 0, 0, 0]), Some("a b".to_string()));
}

#[test]
fn two_single_words_are_never_concatenated() {
    let mut chain = MarkovChain::default();
    chain.add("x");
    chain.add("y");
    for _ in 0..200 {
        let out = chain.generate();
        assert!(out == Some("x".to_string()) || out == Some("y".to_string()));
    }
    for d in 0..10usize {
        let out = chain.generate_with(&vec![d, d]);
        assert!(out == Some("x".to_string()) || out == Some("y".to_string()));
    }
}

#[test]
fn boundary_only_table_generates_the_empty_utterance() {
    let mut chain = MarkovChain::default();
    chain.add("");
    assert_eq!(chain.generate(), Some(String::new()));
    assert_eq!(chain.generate_with(&vec![5]), Some(String::new()));
    chain.add("");
    chain.add("");
    assert_eq!(chain.weight(&Token::Boundary, &Token::Boundary), 3);
    for _ in 0..20 {
        assert_eq!(chain.generate(), Some(String::new()));
    }
    assert_ne!(chain.generate(), None);
}

#[test]
fn pruned_word_is_never_generated() {
    let mut chain = MarkovChain::default();
    chain.add("a b");
    chain.add("c b");
    chain.remove_word("b");
    for _ in 0..200 {
        let out = chain.generate();
        assert!(out == Some("a".to_string()) || out == Some("c".to_string()));
    }
    for d in 0..6usize {
        let out = chain.generate_with(&vec![d, d + 1, d + 2]).unwrap();
        assert!(!out.split(' ').any(|w| w == "b"));
    }
    assert_eq!(said(chain.follow(&Token::Boundary, 0)), Some("a".to_string()));
    assert!(chain.follow(&word("a"), 0).is_none());
    assert!(chain.follow(&word("b"), 0).is_none());
}

#[test]
fn same_draws_give_the_same_utterance() {
    let mut chain = MarkovChain::default();
    chain.add("the cat sat");
    chain.add("the dog sat down");
    chain.add("the dog sat down");
    chain.add("the dog sat down");
    let draws = vec![2, 1, 0, 3, 1, 4, 1, 5, 9];
    let first = chain.generate_with(&draws);
    for _ in 0..10 {
        assert_eq!(chain.generate_with(&draws), first);
    }
    assert_eq!(chain.generate_with(&vec![0, 0, 0, 0]), Some("the cat sat".to_string()));
    assert_eq!(chain.generate_with(&vec![0, 2, 0, 2, 0]), Some("the dog sat down".to_string()));
    assert_eq!(chain.generate_with(&vec![0, 1, 0, 3, 0]), Some("the cat sat down".to_string()));
    assert_eq!(chain.generate_with(&vec![0, 3, 0, 1, 0]), Some("the dog sat".to_string()));
}

#[test]
fn running_total_decides_at_the_weight_boundary() {
    let mut chain = MarkovChain::default();
    chain.add("x");
    chain.add("x");
    chain.add("x");
    chain.add("y");
    chain.add("y");
    assert_eq!(chain.weight(&Token::Boundary, &word("x")), 3);
    assert_eq!(chain.weight(&Token::Boundary, &word("y")), 2);
    assert_eq!(chain.weight_from(&Token::Boundary), 5);
    assert_eq!(said(chain.follow(&Token::Boundary, 0)), Some("x".to_string()));
    assert_eq!(said(chain.follow(&Token::Boundary, 1)), Some("x".to_string()));
    assert_eq!(said(chain.follow(&Token::Boundary, 2)), Some("x".to_string()));
    assert_eq!(said(chain.follow(&Token::Boundary, 3)), Some("x".to_string()));
    assert_eq!(said(chain.follow(&Token::Boundary, 4)), Some("y".to_string()));
    assert_eq!(chain.generate_with(&vec![2, 0]), Some("x".to_string()));
    assert_eq!(chain.generate_with(&vec![4, 0]), Some("y".to_string()));
}

#[test]
fn draws_are_reduced_modulo_the_total() {
    let mut chain = MarkovChain::default();
    chain.add("x");
    chain.add("x");
    chain.add("x");
    chain.add("y");
    chain.add("y");
    assert_eq!(said(chain.follow(&Token::Boundary, 5)), Some("x".to_string()));
    assert_eq!(said(chain.follow(&Token::Boundary, 9)), Some("y".to_string()));
    assert_eq!(said(chain.follow(&Token::Boundary, 12)), Some("x".to_string()));
}

#[test]
fn follow_returns_the_boundary_as_a_token() {
    let mut chain = MarkovChain::default();
    chain.add("a");
    assert!(matches!(chain.follow(&word("a"), 0), Some(Token::Boundary)));
    assert!(chain.follow(&word("z"), 0).is_none());
}

#[test]
fn random_draws_stay_below_the_total() {
    let mut chain = MarkovChain::default();
    chain.add("x");
    chain.add("y");
    for _ in 0..200 {
        assert_eq!(chain.generate(), Some("x".to_string()));
    }
    assert_eq!(said(chain.follow(&Token::Boundary, 0)), Some("x".to_string()));
    assert_eq!(said(chain.follow(&Token::Boundary, 1)), Some("x".to_string()));
}

#[test]
fn walk_is_cut_off_where_the_draws_run_out() {
    let mut chain = MarkovChain::default();
    chain.add("a b c d");
    assert_eq!(chain.generate_with(&vec![]), Some(String::new()));
    assert_eq!(chain.generate_with(&vec![0]), Some("a".to_string()));
    assert_eq!(chain.generate_with(&vec![0, 0]), Some("a b".to_string()));
    assert_eq!(chain.generate_with(&vec![0, 0, 0, 0]), Some("a b c d".to_string()));
    assert_eq!(chain.generate_with(&vec![0, 0, 0, 0, 0, 0]), Some("a b c d".to_string()));
}

#[test]
fn random_walk_is_cut_off_at_the_step_limit() {
    let mut chain = MarkovChain::default();
    chain.add("a a");
    let out = chain.generate().unwrap();
    let words: Vec<&str> = out.split(' ').collect();
    assert_eq!(MAX_STEPS, 1000);
    assert_eq!(words.len(), MAX_STEPS);
    assert!(words.iter().all(|w| *w == "a"));
    assert_eq!(chain.generate_with(&vec![0; 5]), Some("a a a a a".to_string()));
}

#[test]
fn walk_ends_at_a_token_without_transitions() {
    let mut chain = MarkovChain::default();
    chain.add("a b");
    chain.remove_word("b");
    assert_eq!(chain.generate(), Some("a".to_string()));
    assert_eq!(chain.generate_with(&vec![0, 0, 0]), Some("a".to_string()));
    chain.remove_word("a");
    assert_eq!(chain.len(), 1);
    assert_eq!(chain.generate(), Some(String::new()));
}

#[test]
fn empty_words_are_generated_as_words() {
    let mut chain = MarkovChain::default();
    chain.add("a  b");
    assert_eq!(chain.generate(), Some("a  b".to_string()));
}

#[test]
fn join_puts_one_space_between_words() {
    assert_eq!(join_words(&vec![]), "");
    assert_eq!(join_words(&vec!["a".to_string()]), "a");
    assert_eq!(join_words(&vec!["a".to_string(), "b".to_string()]), "a b");
    assert_eq!(
        join_words(&vec!["".to_string(), "b".to_string(), "".to_string()]),
        " b "
    );
}
