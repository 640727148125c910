//! URLs, which the `url` crate parses.

use vstd::prelude::*;

verus! {

/// The error of the `url` crate that says why a text is no URL.
#[verifier::external_type_specification]
#[verifier::external_body]
pub struct ExParseError(url::ParseError);

/// What `url::Url::parse` makes of a text: the serialization of the URL, or the error.
pub uninterp spec fn url_parse(input: Seq<char>) -> Result<Seq<char>, url::ParseError>;

/// What `url::ParseError` displays.
pub uninterp spec fn parse_error_text(error: url::ParseError) -> Seq<char>;

/// Calls `url::Url::parse`, which parses an absolute URL.
///
/// The result depends on the text alone, and it has the name `url_parse`. A URL is handed
/// out as its serialization, which is also what it displays.
#[verifier::external_body]
pub(crate) fn parse_url(input: &str) -> (parsed: Result<String, url::ParseError>)
    ensures
        match parsed {
            Ok(serialization) => url_parse(input@) == Ok::<Seq<char>, url::ParseError>(
                serialization@,
            ),
            Err(error) => url_parse(input@) == Err::<Seq<char>, url::ParseError>(error),
        },
{
    match url::Url::parse(input) {
        Ok(url) => Ok(String::from(url)),
        Err(error) => Err(error),
    }
}

/// Displays a `url::ParseError`, which writes a fixed description for each kind of error.
///
/// The description depends on the error alone, and it has the name `parse_error_text`.
#[verifier::external_body]
pub(crate) fn describe_parse_error(error: &url::ParseError) -> (description: String)
    ensures
        description@ == parse_error_text(*error),
{
    error.to_string()
}

} // verus!
