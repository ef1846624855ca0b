//! Errors of the library.
use vstd::prelude::*;

verus! {

/// What can go wrong while reading arXiv content.
#[derive(Debug)]
pub enum ArxivError {
    ParseError(String),
    InvalidPaperId(String),
    NoContentAvailable(String),
}

impl ArxivError {
    /// The human-readable message of the error.
    pub open spec fn message_spec(&self) -> Seq<char> {
        match self {
            ArxivError::ParseError(m) => "failed to parse arXiv response: "@ + m@,
            ArxivError::InvalidPaperId(m) => "invalid paper ID: "@ + m@,
            ArxivError::NoContentAvailable(m) => "no content available for paper: "@ + m@,
        }
    }

    /// The human-readable message of the error.
    pub fn message(&self) -> (s: String)
        ensures
            s@ == self.message_spec(),
    {
        match self {
            ArxivError::ParseError(m) => {
                let mut s = String::from_str("failed to parse arXiv response: ");
                s.append(m.as_str());
                s
            },
            ArxivError::InvalidPaperId(m) => {
                let mut s = String::from_str("invalid paper ID: ");
                s.append(m.as_str());
                s
            },
            ArxivError::NoContentAvailable(m) => {
                let mut s = String::from_str("no content available for paper: ");
                s.append(m.as_str());
                s
            },
        }
    }
}

} // verus!
