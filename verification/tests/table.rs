use markov_chain::table::MarkovChain;
use markov_chain::token::Token;

fn word(s: &str) -> Token {
    Token::Word(s.to_string())
}

#[test]
fn fresh_table_is_empty() {
    let chain = MarkovChain::default();
    assert_eq!(chain.len(), 0);
    assert_eq!(chain.observed(), 0);
    assert_eq!(chain.weight(&Token::Boundary, &Token::Boundary), 0);
    assert_eq!(chain.weight_from(&Token::Boundary), 0);
}

#[test]
fn single_message_gives_three_transitions() {
    let mut chain = MarkovChain::default();
    chain.add("a b");
    assert_eq!(chain.len(), 3);
    assert_eq!(chain.observed(), 3);
    assert_eq!(chain.weight(&Token::Boundary, &word("a")), 1);
    assert_eq!(chain.weight(&word("a"), &word("b")), 1);
    assert_eq!(chain.weight(&word("b"), &Token::Boundary), 1);
    assert_eq!(chain.weight_from(&Token::Boundary), 1);
    assert_eq!(chain.weight_from(&word("a")), 1);
    assert_eq!(chain.weight_from(&word("b")), 1);
    assert_eq!(chain.weight(&Token::Boundary, &word("b")), 0);
    assert_eq!(chain.weight(&Token::Boundary, &Token::Boundary), 0);
    assert_eq!(chain.weight(&word("a"), &Token::Boundary), 0);
    assert_eq!(chain.weight(&word("a"), &word("a")), 0);
    assert_eq!(chain.weight(&word("b"), &word("a")), 0);
    assert_eq!(chain.weight(&word("b"), &word("b")), 0);
}

#[test]
fn same_message_twice_doubles_every_weight() {
    let mut chain = MarkovChain::default();
    chain.add("a b");
    chain.add("a b");
    assert_eq!(chain.len(), 3);
    assert_eq!(chain.observed(), 6);
    assert_eq!(chain.weight(&Token::Boundary, &word("a")), 2);
    assert_eq!(chain.weight(&word("a"), &word("b")), 2);
    assert_eq!(chain.weight(&word("b"), &Token::Boundary), 2);
}

#[test]
fn two_single_words_give_the_boundary_two_destinations() {
    let mut chain = MarkovChain::default();
    chain.add("x");
    chain.add("y");
    assert_eq!(chain.len(), 3);
    assert_eq!(chain.weight(&Token::Boundary, &word("x")), 1);
    assert_eq!(chain.weight(&Token::Boundary, &word("y")), 1);
    assert_eq!(chain.weight_from(&Token::Boundary), 2);
    assert_eq!(chain.weight(&word("x"), &Token::Boundary), 1);
    assert_eq!(chain.weight(&word("y"), &Token::Boundary), 1);
}

#[test]
fn repeated_transition_in_one_message_is_counted_each_time() {
    let mut chain = MarkovChain::default();
    chain.add("a a a");
    assert_eq!(chain.len(), 2);
    assert_eq!(chain.weight(&Token::Boundary, &word("a")), 1);
    assert_eq!(chain.weight(&word("a"), &word("a")), 2);
    assert_eq!(chain.weight(&word("a"), &Token::Boundary), 1);
    assert_eq!(chain.weight_from(&word("a")), 3);
}

#[test]
fn order_of_messages_does_not_change_the_weights() {
    let mut one = MarkovChain::default();
    one.add("a b");
    one.add("b a c");
    let mut other = MarkovChain::default();
    other.add("b a c");
    other.add("a b");
    let tokens = [Token::Boundary, word("a"), word("b"), word("c")];
    for s in tokens.iter() {
        for d in tokens.iter() {
            assert_eq!(one.weight(s, d), other.weight(s, d));
        }
    }
    assert_eq!(one.weight(&word("b"), &word("a")), 1);
    assert_eq!(one.weight(&word("a"), &word("b")), 1);
    assert_eq!(one.weight(&Token::Boundary, &word("a")), 1);
    assert_eq!(one.weight(&Token::Boundary, &word("b")), 1);
}

#[test]
fn empty_message_records_boundary_to_boundary() {
    let mut chain = MarkovChain::default();
    chain.add("");
    assert_eq!(chain.len(), 1);
    assert_eq!(chain.observed(), 1);
    assert_eq!(chain.weight(&Token::Boundary, &Token::Boundary), 1);
    assert_eq!(chain.weight(&Token::Boundary, &word("")), 0);
}

#[test]
fn neighbouring_spaces_give_the_empty_word() {
    let mut chain = MarkovChain::default();
    chain.add("a  b");
    assert_eq!(chain.len(), 4);
    assert_eq!(chain.weight(&word("a"), &word("")), 1);
    assert_eq!(chain.weight(&word(""), &word("b")), 1);
    assert_eq!(chain.weight(&word("a"), &word("b")), 0);
}

#[test]
fn the_empty_word_is_no_boundary() {
    let mut chain = MarkovChain::default();
    chain.add(" ");
    assert_eq!(chain.len(), 2);
    assert_eq!(chain.weight(&Token::Boundary, &word("")), 1);
    assert_eq!(chain.weight(&word(""), &word("")), 1);
    assert_eq!(chain.weight(&word(""), &Token::Boundary), 1);
    assert_eq!(chain.weight(&Token::Boundary, &Token::Boundary), 0);
}

#[test]
fn observations_count_every_transition() {
    let mut chain = MarkovChain::default();
    chain.add("a b");
    assert_eq!(chain.observed(), 3);
    chain.add("a c");
    assert_eq!(chain.observed(), 6);
    chain.add("");
    assert_eq!(chain.observed(), 7);
    assert_eq!(chain.weight(&Token::Boundary, &word("a")), 2);
    assert_eq!(chain.weight(&word("a"), &word("b")), 1);
    assert_eq!(chain.weight(&word("a"), &word("c")), 1);
}

#[test]
fn prune_removes_both_directions() {
    let mut chain = MarkovChain::default();
    chain.add("a b");
    chain.add("c b");
    assert_eq!(chain.weight(&word("b"), &Token::Boundary), 2);
    chain.remove_word("b");
    assert_eq!(chain.len(), 3);
    assert_eq!(chain.weight(&word("a"), &word("b")), 0);
    assert_eq!(chain.weight(&word("c"), &word("b")), 0);
    assert_eq!(chain.weight(&word("b"), &Token::Boundary), 0);
    assert_eq!(chain.weight_from(&word("b")), 0);
    assert_eq!(chain.weight(&Token::Boundary, &word("a")), 1);
    assert_eq!(chain.weight(&Token::Boundary, &word("c")), 1);
    assert_eq!(chain.weight_from(&Token::Boundary), 2);
    assert_eq!(chain.observed(), 6);
}

#[test]
fn prune_keeps_other_destinations_of_a_source() {
    let mut chain = MarkovChain::default();
    chain.add("a b");
    chain.add("a c");
    chain.add("a");
    chain.remove_word("b");
    assert_eq!(chain.weight(&word("a"), &word("b")), 0);
    assert_eq!(chain.weight(&word("a"), &word("c")), 1);
    assert_eq!(chain.weight(&word("a"), &Token::Boundary), 1);
    assert_eq!(chain.weight(&Token::Boundary, &word("a")), 3);
    assert_eq!(chain.weight(&word("c"), &Token::Boundary), 1);
    assert_eq!(chain.len(), 3);
}

#[test]
fn prune_ignores_unknown_and_spaced_words() {
    let mut chain = MarkovChain::default();
    chain.add("two words");
    chain.add("a b");
    let tokens = [
        Token::Boundary,
        word("two"),
        word("words"),
        word("a"),
        word("b"),
        word("q"),
        word("two words"),
    ];
    let mut before = Vec::new();
    for s in tokens.iter() {
        for d in tokens.iter() {
            before.push(chain.weight(s, d));
        }
    }
    chain.remove_word("q");
    chain.remove_word("two words");
    chain.remove_word("a b");
    let mut after = Vec::new();
    for s in tokens.iter() {
        for d in tokens.iter() {
            after.push(chain.weight(s, d));
        }
    }
    assert_eq!(before, after);
    assert_eq!(chain.len(), 5);
    assert_eq!(chain.observed(), 6);
    assert_eq!(
        chain.generate_with(&vec![0, 0, 0]),
        Some("two words".to_string())
    );
}

#[test]
fn prune_twice_is_prune_once() {
    let mut chain = MarkovChain::default();
    chain.add("a b c");
    chain.remove_word("b");
    assert_eq!(chain.len(), 3);
    chain.remove_word("b");
    assert_eq!(chain.len(), 3);
    assert_eq!(chain.weight(&Token::Boundary, &word("a")), 1);
    assert_eq!(chain.weight(&word("c"), &Token::Boundary), 1);
    assert_eq!(chain.weight_from(&word("a")), 0);
}

#[test]
fn prune_on_an_empty_table_does_nothing() {
    let mut chain = MarkovChain::default();
    chain.remove_word("a");
    assert_eq!(chain.len(), 0);
    assert_eq!(chain.generate(), None);
}

#[test]
fn tokens_compare_by_content() {
    assert!(Token::Boundary.same(&Token::Boundary));
    assert!(word("a").same(&word("a")));
    assert!(!word("a").same(&word("b")));
    assert!(!word("").same(&Token::Boundary));
    assert!(!Token::Boundary.same(&word("")));
    assert!(word("ab").duplicate().same(&word("ab")));
    assert!(Token::Boundary.duplicate().same(&Token::Boundary));
}
