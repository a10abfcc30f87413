//! The address at which a user grants access, and the code that comes back
//! in the query of the answering request.

use vstd::prelude::*;
use crate::words::{join, join_words, texts};

verus! {

/// Why no address could be made.
#[derive(Clone, Copy, Debug, PartialEq, Eq, Structural)]
pub enum AddressError {
    /// The address with its parameters is no absolute URL.
    Malformed,
}

#[verifier::external_type_specification]
#[verifier::external_body]
pub struct ExParseError(url::ParseError);

/// The views of a list of name and value pairs.
pub open spec fn pairs_of(pairs: Seq<(String, String)>) -> Seq<(Seq<char>, Seq<char>)> {
    pairs.map_values(|p: (String, String)| (p.0@, p.1@))
}

/// The text of the URL that `url::Url::parse_with_params` makes of an
/// address and parameters appended to its query; none where it reports an
/// error.
pub uninterp spec fn url_with_params(
    base: Seq<char>,
    params: Seq<(Seq<char>, Seq<char>)>,
) -> Option<Seq<char>>;

/// The name and value pairs that `form_urlencoded::parse` reads from a
/// query, in order, percent-decoded.
pub uninterp spec fn query_pairs(query: Seq<char>) -> Seq<(Seq<char>, Seq<char>)>;

/// Parses an address and appends parameters to its query.
///
/// Calls `url::Url::parse_with_params` and, on success, writes the URL out
/// as a string. What comes back depends on the address and the parameters
/// alone; the contract gives it a name and claims nothing else of it.
#[verifier::external_body]
fn parse_with_params(base: &str, params: &Vec<(String, String)>) -> (r: Result<
    String,
    url::ParseError,
>)
    ensures
        match r {
            Ok(s) => url_with_params(base@, pairs_of(params@)) == Some(s@),
            Err(_) => url_with_params(base@, pairs_of(params@)) is None,
        },
{
    match url::Url::parse_with_params(base, params) {
        Ok(url) => Ok(url.to_string()),
        Err(e) => Err(e),
    }
}

/// Reads the name and value pairs of a query.
///
/// Calls `form_urlencoded::parse` on the bytes of the query and collects
/// the pairs as owned strings, in the order in which they come. What comes
/// back depends on the query alone; the contract gives it a name and claims
/// nothing else of it.
#[verifier::external_body]
fn parse_query(query: &str) -> (pairs: Vec<(String, String)>)
    ensures
        pairs_of(pairs@) == query_pairs(query@),
{
    url::form_urlencoded::parse(query.as_bytes()).into_owned().collect()
}

/// The parameters of a request for authorization.
pub open spec fn auth_params(
    client_id: Seq<char>,
    redirect_uri: Seq<char>,
    scopes: Seq<Seq<char>>,
) -> Seq<(Seq<char>, Seq<char>)> {
    seq![
        ("client_id"@, client_id),
        ("redirect_uri"@, redirect_uri),
        ("response_type"@, "code"@),
        ("scope"@, join(scopes)),
    ]
}

/// The address at which a user grants the scopes to the client: the
/// authorization endpoint with the client, the place to come back to, the
/// kind of answer and the scopes, joined by single spaces, as parameters.
pub open spec fn auth_url(
    client_id: Seq<char>,
    redirect_uri: Seq<char>,
    scopes: Seq<Seq<char>>,
) -> Option<Seq<char>> {
    url_with_params(
        "https://id.twitch.tv/oauth2/authorize"@,
        auth_params(client_id, redirect_uri, scopes),
    )
}

/// Makes the address at which a user grants the scopes to the client.
pub fn format_auth_url(client_id: &str, redirect_uri: &str, scopes: &Vec<String>) -> (r: Result<
    String,
    AddressError,
>)
    ensures
        match r {
            Ok(s) => auth_url(client_id@, redirect_uri@, texts(scopes@)) == Some(s@),
            Err(e) => e == AddressError::Malformed && auth_url(
                client_id@,
                redirect_uri@,
                texts(scopes@),
            ) is None,
        },
{
    let mut params: Vec<(String, String)> = Vec::new();
    params.push(("client_id".to_owned(), client_id.to_owned()));
    params.push(("redirect_uri".to_owned(), redirect_uri.to_owned()));
    params.push(("response_type".to_owned(), "code".to_owned()));
    params.push(("scope".to_owned(), join_words(scopes)));
    proof {
        assert(pairs_of(params@) =~= auth_params(client_id@, redirect_uri@, texts(scopes@)));
    }
    match parse_with_params("https://id.twitch.tv/oauth2/authorize", &params) {
        Ok(s) => Ok(s),
        Err(_) => Err(AddressError::Malformed),
    }
}

/// The value of the last pair named `key`, if there is one.
pub open spec fn last_value(pairs: Seq<(Seq<char>, Seq<char>)>, key: Seq<char>) -> Option<
    Seq<char>,
>
    decreases pairs.len(),
{
    if pairs.len() == 0 {
        None
    } else if pairs.last().0 == key {
        Some(pairs.last().1)
    } else {
        last_value(pairs.drop_last(), key)
    }
}

/// Finds the value of the last pair named `key`: where a name comes more
/// than once, the last one counts.
pub fn find_param(pairs: &Vec<(String, String)>, key: &str) -> (value: Option<String>)
    ensures
        match value {
            Some(v) => last_value(pairs_of(pairs@), key@) == Some(v@),
            None => last_value(pairs_of(pairs@), key@) is None,
        },
{
    let name = key.to_owned();
    let mut i: usize = pairs.len();
    proof {
        assert(pairs_of(pairs@).take(i as int) =~= pairs_of(pairs@));
    }
    while i > 0
        invariant
            i <= pairs.len(),
            name@ == key@,
            last_value(pairs_of(pairs@), key@) == last_value(pairs_of(pairs@).take(i as int), key@),
        decreases i,
    {
        i = i - 1;
        proof {
            assert(pairs_of(pairs@).take(i + 1).drop_last() =~= pairs_of(pairs@).take(i as int));
        }
        if pairs[i].0 == name {
            return Some(pairs[i].1.clone());
        }
    }
    None
}

/// The authorization code in the query of an answering request, if it
/// holds one.
pub fn code_param(query: &str) -> (code: Option<String>)
    ensures
        match code {
            Some(v) => last_value(query_pairs(query@), "code"@) == Some(v@),
            None => last_value(query_pairs(query@), "code"@) is None,
        },
{
    let pairs = parse_query(query);
    find_param(&pairs, "code")
}

} // verus!
