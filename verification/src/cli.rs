//! What the command line decides by itself: how much is logged, how errors are reported and
//! which status the program exits with.

use vstd::prelude::*;

use crate::paths::Platform;
use crate::style;

verus! {

/// How much is logged.
#[derive(Debug, Clone, Copy, PartialEq, Eq, Structural)]
pub enum Level {
    /// Suppress all tracing output by default (overridable by `RUST_LOG`).
    Default,
    /// Show debug messages by default (overridable by `RUST_LOG`).
    Verbose,
    /// Show messages in a hierarchical span tree. By default, debug messages are shown
    /// (overridable by `RUST_LOG`).
    ExtraVerbose,
}

impl Default for Level {
    fn default() -> (level: Self)
        ensures
            level == Level::Default,
    {
        Level::Default
    }
}

/// The level for a command line that asks `verbose` times for more output.
pub open spec fn level_of(verbose: u8) -> Level {
    match verbose {
        0u8 => Level::Default,
        1u8 => Level::Verbose,
        _ => Level::ExtraVerbose,
    }
}

impl Level {
    /// The level for a command line that asks `verbose` times for more output.
    pub fn from_verbosity(verbose: u8) -> (level: Self)
        ensures
            level == level_of(verbose),
    {
        match verbose {
            0 => Level::Default,
            1 => Level::Verbose,
            _ => Level::ExtraVerbose,
        }
    }

    /// The directive that filters the log messages, or `None` if there are to be none.
    pub fn directive(&self) -> (directive: Option<&'static str>)
        ensures
            directive.deep_view() == match *self {
                Level::Default => None::<Seq<char>>,
                Level::Verbose => Some("pre_commit=debug"@),
                Level::ExtraVerbose => Some("pre_commit=trace"@),
            },
    {
        match self {
            Level::Default => None,
            Level::Verbose => Some("pre_commit=debug"),
            Level::ExtraVerbose => Some("pre_commit=trace"),
        }
    }
}

/// How a command ended.
#[derive(Debug, Clone, Copy, PartialEq, Eq, Structural)]
pub enum ExitStatus {
    /// The command succeeded.
    Success,
    /// The command failed due to an error in the input.
    Failure,
    /// The command failed with an unexpected error.
    Error,
}

impl ExitStatus {
    /// The code that the program exits with.
    pub fn code(&self) -> (code: u8)
        ensures
            code == match *self {
                ExitStatus::Success => 0u8,
                ExitStatus::Failure => 1u8,
                ExitStatus::Error => 2u8,
            },
    {
        match self {
            ExitStatus::Success => 0,
            ExitStatus::Failure => 1,
            ExitStatus::Error => 2,
        }
    }
}

/// The code that an interrupted program exits with: `STATUS_CONTROL_C_EXIT` on Windows, and
/// elsewhere the number of the signal above 128.
pub fn interrupt_exit_code(platform: Platform) -> (code: i32)
    ensures
        platform == Platform::Windows ==> code + 0x1_0000_0000 == 0xC000_013A,
        platform == Platform::Unix ==> code == 128 + 2,
{
    match platform {
        Platform::Windows => -1073741510,
        Platform::Unix => 130,
    }
}

/// The line that reports an error.
pub open spec fn error_line(error: Seq<char>) -> Seq<char> {
    style::in_bold(style::in_red("error"@)) + ": "@ + error
}

/// The line that reports what an error was caused by.
pub open spec fn cause_line(cause: Seq<char>) -> Seq<char> {
    "  "@ + style::in_bold(style::in_red("caused by"@)) + ": "@ + cause
}

/// The lines that report an error and, one by one, what it was caused by.
pub open spec fn report(chain: Seq<Seq<char>>) -> Seq<Seq<char>> {
    Seq::new(
        chain.len(),
        |i: int|
            if i == 0 {
                error_line(chain[i])
            } else {
                cause_line(chain[i])
            },
    )
}

/// Reports an error: `chain` is its message, then that of what caused it, and so on.
pub fn report_error(chain: &Vec<String>) -> (lines: Vec<String>)
    requires
        chain.len() > 0,
    ensures
        lines.deep_view() == report(chain.deep_view()),
{
    let mut lines: Vec<String> = Vec::new();
    for i in 0..chain.len()
        invariant
            lines.len() == i,
            forall|k: int| 0 <= k < i ==> (#[trigger] lines@[k])@ == report(chain.deep_view())[k],
    {
        let line = if i == 0 {
            let mut line = style::bold(style::red("error").as_str());
            line.append(": ");
            line.append(chain[i].as_str());
            line
        } else {
            let mut line = "  ".to_owned();
            line.append(style::bold(style::red("caused by").as_str()).as_str());
            line.append(": ");
            line.append(chain[i].as_str());
            line
        };
        assert(line@ == report(chain.deep_view())[i as int]);
        lines.push(line);
    }
    assert(lines.deep_view() =~= report(chain.deep_view()));
    lines
}

/// Who asks more often gets at least as much logged: nothing by default, more for one request,
/// and all for two or more.
pub proof fn more_requests_never_log_less(fewer: u8, more: u8)
    requires
        fewer <= more,
    ensures
        level_of(fewer) == Level::Default <==> fewer == 0,
        level_of(fewer) == Level::Verbose <==> fewer == 1,
        level_of(fewer) == Level::ExtraVerbose <==> fewer >= 2,
        level_of(more) == Level::Default ==> level_of(fewer) == Level::Default,
        level_of(fewer) == Level::ExtraVerbose ==> level_of(more) == Level::ExtraVerbose,
{
}

/// An error is reported in one line, and each of its causes in one line more, in their order.
/// What the line is about is in bold red, and the message follows it as it is.
pub proof fn each_cause_is_reported_in_its_order(chain: Seq<Seq<char>>, i: int)
    requires
        0 <= i < chain.len(),
    ensures
        report(chain).len() == chain.len(),
        i == 0 ==> report(chain)[i] == "\x1b[1m"@ + "\x1b[31m"@ + "error"@ + "\x1b[39m"@
            + "\x1b[0m"@ + ": "@ + chain[i],
        i > 0 ==> report(chain)[i] == "  "@ + "\x1b[1m"@ + "\x1b[31m"@ + "caused by"@
            + "\x1b[39m"@ + "\x1b[0m"@ + ": "@ + chain[i],
{
    if i == 0 {
        assert(report(chain)[i] =~= "\x1b[1m"@ + "\x1b[31m"@ + "error"@ + "\x1b[39m"@
            + "\x1b[0m"@ + ": "@ + chain[i]);
    } else {
        assert(report(chain)[i] =~= "  "@ + "\x1b[1m"@ + "\x1b[31m"@ + "caused by"@
            + "\x1b[39m"@ + "\x1b[0m"@ + ": "@ + chain[i]);
    }
}

} // verus!
