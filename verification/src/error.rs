//! Errors of a scan.

use crate::path::{FilePath, PathView};
use vstd::prelude::*;
use vstd::string::*;

verus! {

/// An error that a scan can meet.
///
/// The error of one file or directory is collected among the warnings of the scan, which goes on.
/// Errors of the operating system are held by their text.
#[derive(Debug)]
pub enum ScanError {
    /// A path could not be read.
    Io { path: FilePath, source: String },
    /// The terminal could not be set up or drawn.
    Tui(String),
}

/// What an error says.
pub enum ErrorView {
    Io { path: PathView, source: Seq<char> },
    Tui(Seq<char>),
}

impl View for ScanError {
    type V = ErrorView;

    open spec fn view(&self) -> ErrorView {
        match self {
            ScanError::Io { path, source } => ErrorView::Io { path: path@, source: source@ },
            ScanError::Tui(source) => ErrorView::Tui(source@),
        }
    }
}

impl ErrorView {
    /// The message: the path and the cause, or the cause of a terminal error.
    pub open spec fn message(self) -> Seq<char> {
        match self {
            ErrorView::Io { path, source } => path.text() + ": "@ + source,
            ErrorView::Tui(source) => "终端错误: "@ + source,
        }
    }

    /// The text of the error that the operating system gave.
    pub open spec fn source(self) -> Seq<char> {
        match self {
            ErrorView::Io { path, source } => source,
            ErrorView::Tui(source) => source,
        }
    }
}

/// What a list of errors says.
pub open spec fn errors_view(errors: Seq<ScanError>) -> Seq<ErrorView> {
    errors.map_values(|e: ScanError| e@)
}

impl ScanError {
    /// The error's message.
    pub fn message(&self) -> (text: String)
        ensures
            text@ == self@.message(),
    {
        match self {
            ScanError::Io { path, source } => {
                let mut text = path.display();
                text.append(": ");
                text.append(source.as_str());
                text
            },
            ScanError::Tui(source) => {
                let mut text = "终端错误: ".to_string();
                text.append(source.as_str());
                text
            },
        }
    }

    /// The text of the error that the operating system gave.
    pub fn source(&self) -> (text: &String)
        ensures
            text@ == self@.source(),
    {
        match self {
            ScanError::Io { path: _, source } => source,
            ScanError::Tui(source) => source,
        }
    }
}

impl From<String> for ScanError {
    /// An error without a path is one of the terminal.
    fn from(source: String) -> (error: ScanError) {
        ScanError::Tui(source)
    }
}

impl vstd::std_specs::convert::FromSpecImpl<String> for ScanError {
    open spec fn obeys_from_spec() -> bool {
        true
    }

    open spec fn from_spec(source: String) -> ScanError {
        ScanError::Tui(source)
    }
}

impl Clone for ScanError {
    fn clone(&self) -> (copy: Self)
        ensures
            copy@ == self@,
    {
        match self {
            ScanError::Io { path, source } => ScanError::Io {
                path: path.clone(),
                source: source.clone(),
            },
            ScanError::Tui(source) => ScanError::Tui(source.clone()),
        }
    }
}

/// The message of an error on a path names the path in front of the cause; that of the terminal says
/// so. The cause is what the operating system gave.
pub proof fn law_messages(path: PathView, cause: Seq<char>)
    ensures
        ({
            let error = ErrorView::Io { path, source: cause };
            &&& error.message() == path.text() + ": "@ + cause
            &&& error.source() == cause
        }),
        ErrorView::Tui(cause).message() == "终端错误: "@ + cause,
        ErrorView::Tui(cause).source() == cause,
{
}

} // verus!
