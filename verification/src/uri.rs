//! URLs and hexadecimal text, as the crates `url` and `hex` read them.

use url::Url;
use vstd::prelude::*;

verus! {

/// The error of `Url::parse`.
#[verifier::external_type_specification]
#[verifier::external_body]
pub struct ExUrlParseError(url::ParseError);

/// The error of `hex::decode`.
#[verifier::external_type_specification]
#[verifier::external_body]
pub struct ExFromHexError(hex::FromHexError);

/// The parts of a URL.
pub struct UrlParts {
    /// The scheme, such as `http`
    pub scheme: String,
    /// The host, if there is one
    pub host: Option<String>,
    /// The port, if it is given and is not the scheme's own
    pub port: Option<u16>,
    /// The whole URL in its normal form
    pub text: String,
    /// The decoded name-value pairs of the query
    pub query: Vec<(String, String)>,
}

/// The texts of some pairs of strings.
pub open spec fn pair_texts(pairs: Seq<(String, String)>) -> Seq<(Seq<char>, Seq<char>)> {
    pairs.map_values(|p: (String, String)| (p.0@, p.1@))
}

/// The texts of pairs of strings are those of each pair, in order.
pub proof fn law_pair_texts(pairs: Seq<(String, String)>, i: int)
    ensures
        pair_texts(pairs).len() == pairs.len(),
        0 <= i < pairs.len() ==> pair_texts(pairs)[i] == (pairs[i].0@, pairs[i].1@),
{
}

/// The text of an optional string.
pub open spec fn optional_text(s: Option<String>) -> Option<Seq<char>> {
    match s {
        Some(s) => Some(s@),
        None => None,
    }
}

/// An optional string has a text just when it is there, and then its own.
pub proof fn law_optional_text(s: String)
    ensures
        optional_text(Some(s)) == Some(s@),
        optional_text(None) is None,
{
}

/// Whether `Url::parse` accepts a text.
pub uninterp spec fn url_parses(text: Seq<char>) -> bool;

/// What `Url::scheme` gives for a text that parses.
pub uninterp spec fn url_scheme(text: Seq<char>) -> Seq<char>;

/// What `Url::host_str` gives for a text that parses.
pub uninterp spec fn url_host(text: Seq<char>) -> Option<Seq<char>>;

/// What `Url::port` gives for a text that parses.
pub uninterp spec fn url_port(text: Seq<char>) -> Option<u16>;

/// What `Url::to_string` gives for a text that parses.
pub uninterp spec fn url_text(text: Seq<char>) -> Seq<char>;

/// What `Url::query_pairs` gives for a text that parses.
pub uninterp spec fn url_query_pairs(text: Seq<char>) -> Seq<(Seq<char>, Seq<char>)>;

/// `Url::parse`, and on the URL it gives `scheme`, `host_str`, `port`, `to_string`
/// and `query_pairs`, with each pair turned into owned strings. All of them depend on
/// the text alone; how is the URL standard's matter and is left unsaid.
#[verifier::external_body]
pub(crate) fn parse_url(text: &str) -> (r: Result<UrlParts, url::ParseError>)
    ensures
        match r {
            Ok(parts) => {
                &&& url_parses(text@)
                &&& parts.scheme@ == url_scheme(text@)
                &&& optional_text(parts.host) == url_host(text@)
                &&& parts.port == url_port(text@)
                &&& parts.text@ == url_text(text@)
                &&& pair_texts(parts.query@) == url_query_pairs(text@)
            },
            Err(_) => !url_parses(text@),
        },
{
    let url = Url::parse(text)?;
    Ok(
        UrlParts {
            scheme: url.scheme().to_string(),
            host: url.host_str().map(|host| host.to_string()),
            port: url.port(),
            text: url.to_string(),
            query: url.query_pairs().map(
                |(name, value)| (name.into_owned(), value.into_owned()),
            ).collect(),
        },
    )
}

/// Whether `c` is a hexadecimal digit.
pub open spec fn is_hex_digit(c: char) -> bool {
    '0' <= c <= '9' || 'a' <= c <= 'f' || 'A' <= c <= 'F'
}

/// The value of a hexadecimal digit.
pub open spec fn hex_value(c: char) -> int {
    if '0' <= c <= '9' {
        c as int - '0' as int
    } else if 'a' <= c <= 'f' {
        c as int - 'a' as int + 10
    } else {
        c as int - 'A' as int + 10
    }
}

/// Whether a text is a sequence of pairs of hexadecimal digits.
pub open spec fn is_hex(text: Seq<char>) -> bool {
    &&& text.len() % 2 == 0
    &&& forall|i: int| 0 <= i < text.len() ==> is_hex_digit(#[trigger] text[i])
}

/// The bytes that pairs of hexadecimal digits write.
pub open spec fn hex_bytes(text: Seq<char>) -> Seq<u8> {
    Seq::new(
        text.len() / 2,
        |i: int| (hex_value(text[2 * i]) * 16 + hex_value(text[2 * i + 1])) as u8,
    )
}

/// `hex::decode`: the bytes that pairs of hexadecimal digits of either case write. It
/// fails on an odd number of characters and on any other character.
#[verifier::external_body]
pub(crate) fn hex_decode(text: &str) -> (r: Result<Vec<u8>, hex::FromHexError>)
    ensures
        match r {
            Ok(bytes) => is_hex(text@) && bytes@ == hex_bytes(text@),
            Err(_) => !is_hex(text@),
        },
{
    hex::decode(text)
}

} // verus!
