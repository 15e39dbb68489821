//! Why something could not be analysed.

use crate::text::joined;
use vstd::prelude::*;

verus! {

/// An error of a frontend.
#[derive(Debug, PartialEq, Eq)]
pub enum Error {
    /// The input is malformed.
    Parse(String),
    /// The input is outside the supported subset.
    Unsupported(String),
}

/// An error as a mathematical value.
pub enum ErrorView {
    Parse(Seq<char>),
    Unsupported(Seq<char>),
}

impl View for Error {
    type V = ErrorView;

    open spec fn view(&self) -> ErrorView {
        match self {
            Error::Parse(m) => ErrorView::Parse(m@),
            Error::Unsupported(m) => ErrorView::Unsupported(m@),
        }
    }
}

impl ErrorView {
    /// How a report shows the error.
    pub open spec fn shown(self) -> Seq<char> {
        match self {
            ErrorView::Parse(m) => "parse error: "@ + m,
            ErrorView::Unsupported(m) => "unsupported: "@ + m,
        }
    }
}

impl Error {
    /// A malformed input.
    pub fn parse(message: &str) -> (e: Error)
        ensures
            e@ == ErrorView::Parse(message@),
    {
        Error::Parse(message.to_owned())
    }

    /// An input outside the supported subset.
    pub fn unsupported(message: &str) -> (e: Error)
        ensures
            e@ == ErrorView::Unsupported(message@),
    {
        Error::Unsupported(message.to_owned())
    }

    /// The error as a report shows it.
    pub fn render(&self) -> (text: String)
        ensures
            text@ == self@.shown(),
    {
        match self {
            Error::Parse(m) => joined("parse error: ", m.as_str()),
            Error::Unsupported(m) => joined("unsupported: ", m.as_str()),
        }
    }
}

} // verus!
