//! Paper metadata.
use vstd::prelude::*;

verus! {

/// An author of an arXiv paper, with any institutional affiliations.
#[derive(Debug, Clone, PartialEq, Eq)]
pub struct Author {
    /// The full name of the author.
    pub name: String,
    /// Associated institutional affiliations, if any.
    pub affiliations: Vec<String>,
}

/// Metadata of one arXiv paper.
#[derive(Debug, Clone, PartialEq, Eq)]
pub struct Paper {
    /// The arXiv identifier (e.g. `1706.03762`).
    pub id: String,
    pub title: String,
    pub authors: Vec<Author>,
    pub abstract_text: String,
    /// Subject categories (e.g. `cs.AI`).
    pub categories: Vec<String>,
    /// Publication timestamp.
    pub published: String,
    /// Canonical URL on arxiv.org.
    pub url: String,
    pub doi: Option<String>,
    pub journal_ref: Option<String>,
}

} // verus!
