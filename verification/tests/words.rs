use markov_chain::words::{has_space, join_words, split_words};

fn strings(ws: &[&str]) -> Vec<String> {
    ws.iter().map(|w| w.to_string()).collect()
}

#[test]
fn empty_message_has_no_words() {
    assert_eq!(split_words(""), Vec::<String>::new());
}

#[test]
fn message_without_space_is_one_word() {
    assert_eq!(split_words("hello"), strings(&["hello"]));
}

#[test]
fn message_is_split_at_each_space() {
    assert_eq!(split_words("a b"), strings(&["a", "b"]));
    assert_eq!(split_words("the quick brown fox"), strings(&["the", "quick", "brown", "fox"]));
}

#[test]
fn spaces_at_the_edges_give_empty_words() {
    assert_eq!(split_words(" "), strings(&["", ""]));
    assert_eq!(split_words(" a"), strings(&["", "a"]));
    assert_eq!(split_words("a "), strings(&["a", ""]));
    assert_eq!(split_words("a  b"), strings(&["a", "", "b"]));
    assert_eq!(split_words("   "), strings(&["", "", "", ""]));
}

#[test]
fn other_whitespace_does_not_split() {
    assert_eq!(split_words("a\tb\nc"), strings(&["a\tb\nc"]));
}

#[test]
fn words_keep_characters_beyond_ascii() {
    assert_eq!(split_words("héllo wörld ✓"), strings(&["héllo", "wörld", "✓"]));
}

#[test]
fn split_then_join_gives_the_message_back() {
    for text in ["", "a", "a b", " a  b ", "  ", "x y z", "héllo wörld"] {
        assert_eq!(join_words(&split_words(text)), text);
    }
}

#[test]
fn has_space_finds_a_space_anywhere() {
    assert!(!has_space(""));
    assert!(!has_space("word"));
    assert!(!has_space("tab\tbed"));
    assert!(has_space(" "));
    assert!(has_space("two words"));
    assert!(has_space("trailing "));
    assert!(has_space(" leading"));
}
