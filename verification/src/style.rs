//! Colours of the messages, which the `owo-colors` crate writes.

use owo_colors::OwoColorize;
use vstd::prelude::*;

verus! {

/// `text` in cyan, as a terminal reads it.
pub open spec fn in_cyan(text: Seq<char>) -> Seq<char> {
    "\x1b[36m"@ + text + "\x1b[39m"@
}

/// `text` in red, as a terminal reads it.
pub open spec fn in_red(text: Seq<char>) -> Seq<char> {
    "\x1b[31m"@ + text + "\x1b[39m"@
}

/// `text` in bold, as a terminal reads it.
pub open spec fn in_bold(text: Seq<char>) -> Seq<char> {
    "\x1b[1m"@ + text + "\x1b[0m"@
}

/// Calls `owo_colors::OwoColorize::cyan` and displays what it returns: the text between the
/// sequence that sets cyan and the one that resets the foreground colour.
#[verifier::external_body]
pub(crate) fn cyan(text: &str) -> (styled: String)
    ensures
        styled@ == in_cyan(text@),
{
    format!("{}", text.cyan())
}

/// Calls `owo_colors::OwoColorize::red` and displays what it returns: the text between the
/// sequence that sets red and the one that resets the foreground colour.
#[verifier::external_body]
pub(crate) fn red(text: &str) -> (styled: String)
    ensures
        styled@ == in_red(text@),
{
    format!("{}", text.red())
}

/// Calls `owo_colors::OwoColorize::bold` and displays what it returns: the text between the
/// sequence that sets bold and the one that resets every style.
#[verifier::external_body]
pub(crate) fn bold(text: &str) -> (styled: String)
    ensures
        styled@ == in_bold(text@),
{
    format!("{}", text.bold())
}

} // verus!
