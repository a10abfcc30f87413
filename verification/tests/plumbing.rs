use markov_chain::command::{classify, has_prefix, Command};
use markov_chain::oauth::{code_param, find_param, format_auth_url};

fn pair(name: &str, value: &str) -> (String, String) {
    (name.to_string(), value.to_string())
}

#[test]
fn generate_requests_are_recognised() {
    assert_eq!(classify("~generate"), Command::Generate);
    assert_eq!(classify("~generate now please"), Command::Generate);
    assert_eq!(classify("~generatex"), Command::Generate);
}

#[test]
fn join_requests_are_recognised() {
    assert_eq!(classify("~join"), Command::Join);
    assert_eq!(classify("~join somebody"), Command::Join);
}

#[test]
fn other_messages_are_material() {
    assert_eq!(classify(""), Command::Ingest);
    assert_eq!(classify("hello there"), Command::Ingest);
    assert_eq!(classify(" ~generate"), Command::Ingest);
    assert_eq!(classify("~gen"), Command::Ingest);
    assert_eq!(classify("~joi"), Command::Ingest);
    assert_eq!(classify("~"), Command::Ingest);
    assert_eq!(classify("say ~join"), Command::Ingest);
}

#[test]
fn prefix_is_compared_character_by_character() {
    assert!(has_prefix("", ""));
    assert!(has_prefix("abc", ""));
    assert!(has_prefix("abc", "ab"));
    assert!(has_prefix("abc", "abc"));
    assert!(!has_prefix("abc", "abcd"));
    assert!(!has_prefix("abc", "b"));
    assert!(!has_prefix("", "a"));
    assert!(has_prefix("héllo", "hé"));
    assert!(!has_prefix("hello", "hé"));
}

#[test]
fn authorization_address_carries_the_four_parameters() {
    let scopes = vec!["chat:read".to_string(), "chat:edit".to_string()];
    let made = format_auth_url("abc123", "http://localhost:8080", &scopes);
    assert_eq!(
        made,
        Ok("https://id.twitch.tv/oauth2/authorize?client_id=abc123&redirect_uri=http%3A%2F%2Flocalhost%3A8080&response_type=code&scope=chat%3Aread+chat%3Aedit".to_string())
    );
}

#[test]
fn authorization_address_is_what_the_url_parser_makes() {
    let scopes = vec!["a".to_string(), "b c".to_string(), "".to_string()];
    let made = format_auth_url("id & co", "https://example.net/back?x=1", &scopes).unwrap();
    let expected = url::Url::parse_with_params(
        "https://id.twitch.tv/oauth2/authorize",
        &[
            ("client_id", "id & co"),
            ("redirect_uri", "https://example.net/back?x=1"),
            ("response_type", "code"),
            ("scope", "a b c "),
        ],
    )
    .unwrap()
    .to_string();
    assert_eq!(made, expected);
}

#[test]
fn authorization_address_without_scopes_has_an_empty_scope() {
    let made = format_auth_url("x", "y", &vec![]).unwrap();
    assert_eq!(
        made,
        "https://id.twitch.tv/oauth2/authorize?client_id=x&redirect_uri=y&response_type=code&scope="
    );
}

#[test]
fn code_is_read_from_the_query() {
    assert_eq!(code_param("code=abc"), Some("abc".to_string()));
    assert_eq!(code_param("code=abc&scope=chat%3Aread"), Some("abc".to_string()));
    assert_eq!(code_param("state=1&code=x+y%21"), Some("x y!".to_string()));
    assert_eq!(code_param("code="), Some(String::new()));
}

#[test]
fn query_without_a_code_gives_none() {
    assert_eq!(code_param(""), None);
    assert_eq!(code_param("state=1"), None);
    assert_eq!(code_param("Code=abc"), None);
    assert_eq!(code_param("codex=abc"), None);
}

#[test]
fn last_code_counts() {
    assert_eq!(code_param("code=a&code=b"), Some("b".to_string()));
    assert_eq!(code_param("code=a&x=1&code=b&y=2"), Some("b".to_string()));
}

#[test]
fn find_param_takes_the_last_pair_of_that_name() {
    let pairs = vec![pair("a", "1"), pair("b", "2"), pair("a", "3")];
    assert_eq!(find_param(&pairs, "a"), Some("3".to_string()));
    assert_eq!(find_param(&pairs, "b"), Some("2".to_string()));
    assert_eq!(find_param(&pairs, "c"), None);
    assert_eq!(find_param(&vec![], "a"), None);
}
