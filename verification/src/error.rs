//! What can go wrong when the hooks of a project are loaded.

use vstd::prelude::*;

verus! {

/// Why the hooks of a project could not be loaded.
#[derive(Debug)]
pub enum Error {
    /// The URL of a repository could not be parsed; the parser's description.
    InvalidUrl(String),
    /// A configuration or a manifest could not be read; the reader's description.
    ReadConfig(String),
    /// A project asks for a hook that its repository does not offer.
    HookNotFound { hook: String, repo: String },
    /// A repository could not be prepared; the store's description.
    Store(String),
}

/// What an [`Error`] says.
pub enum ErrorView {
    InvalidUrl(Seq<char>),
    ReadConfig(Seq<char>),
    HookNotFound { hook: Seq<char>, repo: Seq<char> },
    Store(Seq<char>),
}

impl View for Error {
    type V = ErrorView;

    open spec fn view(&self) -> ErrorView {
        match self {
            Error::InvalidUrl(description) => ErrorView::InvalidUrl(description@),
            Error::ReadConfig(description) => ErrorView::ReadConfig(description@),
            Error::HookNotFound { hook, repo } => ErrorView::HookNotFound {
                hook: hook@,
                repo: repo@,
            },
            Error::Store(description) => ErrorView::Store(description@),
        }
    }
}

/// The message of an error.
pub open spec fn error_message(error: ErrorView) -> Seq<char> {
    match error {
        ErrorView::InvalidUrl(description) => "Failed to parse URL: "@ + description,
        ErrorView::ReadConfig(description) => description,
        ErrorView::HookNotFound { hook, repo } => "Hook not found: "@ + hook + " in repo "@ + repo,
        ErrorView::Store(description) => description,
    }
}

impl Error {
    /// The message of the error.
    pub fn message(&self) -> (message: String)
        ensures
            message@ == error_message(self@),
    {
        match self {
            Error::InvalidUrl(description) => {
                let mut message = "Failed to parse URL: ".to_owned();
                message.append(description.as_str());
                message
            },
            Error::ReadConfig(description) => description.clone(),
            Error::HookNotFound { hook, repo } => {
                let mut message = "Hook not found: ".to_owned();
                message.append(hook.as_str());
                message.append(" in repo ");
                message.append(repo.as_str());
                message
            },
            Error::Store(description) => description.clone(),
        }
    }
}

/// A message says what went wrong: of a URL that it could not be parsed, and why; of a hook
/// which it is and in which repository it was not found; of a reader and of the store nothing
/// but their own description.
pub proof fn a_message_says_what_went_wrong(description: Seq<char>, name: Seq<char>)
    ensures
        error_message(ErrorView::InvalidUrl(description)) == "Failed to parse URL: "@
            + description,
        error_message(ErrorView::HookNotFound { hook: name, repo: description })
            == "Hook not found: "@ + name + " in repo "@ + description,
        error_message(ErrorView::ReadConfig(description)) == description,
        error_message(ErrorView::Store(description)) == description,
{
}

} // verus!
