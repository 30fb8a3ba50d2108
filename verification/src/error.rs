//! Why a listing fails as a whole.

use vstd::prelude::*;
use vstd::string::StringExecFns;

verus! {

/// A failure of the whole listing. A child that cannot be read is no such
/// failure: it is left out of the listing.
#[derive(Debug, Clone, PartialEq, Eq)]
pub enum ListError {
    /// Nothing exists at the path, which the error carries.
    NotFound(String),
    /// The path, which the error carries, is not a directory.
    NotADirectory(String),
    /// The directory could not be enumerated; the error carries what the
    /// operating system said.
    ReadError(String),
}

/// A `ListError` with its text as a character sequence.
pub enum ListErrorView {
    NotFound(Seq<char>),
    NotADirectory(Seq<char>),
    ReadError(Seq<char>),
}

impl ListErrorView {
    /// The message shown to the user.
    pub open spec fn message(self) -> Seq<char> {
        match self {
            ListErrorView::NotFound(path) => "Directory does not exist: "@ + path,
            ListErrorView::NotADirectory(path) => "Path is not a directory: "@ + path,
            ListErrorView::ReadError(cause) => "Failed to read directory: "@ + cause,
        }
    }
}

impl View for ListError {
    type V = ListErrorView;

    open spec fn view(&self) -> ListErrorView {
        match *self {
            ListError::NotFound(path) => ListErrorView::NotFound(path@),
            ListError::NotADirectory(path) => ListErrorView::NotADirectory(path@),
            ListError::ReadError(cause) => ListErrorView::ReadError(cause@),
        }
    }
}

impl DeepView for ListError {
    type V = ListErrorView;

    open spec fn deep_view(&self) -> ListErrorView {
        self@
    }
}

impl ListError {
    /// The message shown to the user: what went wrong, then the path or the
    /// cause.
    pub fn message(&self) -> (text: String)
        ensures
            text@ == self@.message(),
    {
        match self {
            ListError::NotFound(path) => {
                "Directory does not exist: ".to_owned().concat(path.as_str())
            },
            ListError::NotADirectory(path) => {
                "Path is not a directory: ".to_owned().concat(path.as_str())
            },
            ListError::ReadError(cause) => {
                "Failed to read directory: ".to_owned().concat(cause.as_str())
            },
        }
    }
}

} // verus!
