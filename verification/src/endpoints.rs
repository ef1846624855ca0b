//! Addresses of the arXiv and Semantic Scholar endpoints, and what an HTTP status
//! means for a fetch.
use vstd::prelude::*;

verus! {

fn joined(base: &str, id: &str, tail: &str) -> (s: String)
    ensures
        s@ == base@ + id@ + tail@,
{
    let mut s = String::from_str(base);
    s.append(id);
    s.append(tail);
    s
}

/// The HTML rendering of a paper on arxiv.org.
pub fn html_url(paper_id: &str) -> (u: String)
    ensures
        u@ == "https://arxiv.org/html/"@ + paper_id@,
{
    let u = joined("https://arxiv.org/html/", paper_id, "");
    proof {
        reveal_strlit("");
    }
    assert(u@ =~= "https://arxiv.org/html/"@ + paper_id@);
    u
}

/// The PDF of a paper on arxiv.org.
pub fn pdf_url(paper_id: &str) -> (u: String)
    ensures
        u@ == "https://arxiv.org/pdf/"@ + paper_id@,
{
    let u = joined("https://arxiv.org/pdf/", paper_id, "");
    proof {
        reveal_strlit("");
    }
    assert(u@ =~= "https://arxiv.org/pdf/"@ + paper_id@);
    u
}

/// The Semantic Scholar list of papers citing an arXiv paper.
pub fn citations_url(paper_id: &str) -> (u: String)
    ensures
        u@ == "https://api.semanticscholar.org/graph/v1/paper/ArXiv:"@ + paper_id@ + "/citations"@,
{
    joined("https://api.semanticscholar.org/graph/v1/paper/ArXiv:", paper_id, "/citations")
}

/// The Semantic Scholar recommendations for an arXiv paper.
pub fn recommendations_url(paper_id: &str) -> (u: String)
    ensures
        u@ == "https://api.semanticscholar.org/recommendations/v1/papers/forpaper/ArXiv:"@ + paper_id@,
{
    let u = joined(
        "https://api.semanticscholar.org/recommendations/v1/papers/forpaper/ArXiv:",
        paper_id,
        "",
    );
    proof {
        reveal_strlit("");
    }
    assert(u@ =~= "https://api.semanticscholar.org/recommendations/v1/papers/forpaper/ArXiv:"@
        + paper_id@);
    u
}

/// A status in `200..=299`.
pub fn is_success(status: u16) -> (b: bool)
    ensures
        b == (200 <= status <= 299),
{
    200 <= status && status <= 299
}

/// What a fetch of a paper's HTML makes of the response status.
#[derive(Debug, Clone, Copy, PartialEq, Eq)]
pub enum FetchOutcome {
    /// The body is the payload.
    Body,
    /// The paper has no HTML rendering (404).
    Missing,
    /// Any other client or server error.
    Failed,
}

/// 404 means the paper has no HTML version; another status from 400 to 599 is an
/// error; anything else carries the page.
pub fn html_status_outcome(status: u16) -> (o: FetchOutcome)
    ensures
        o == (if status == 404 {
            FetchOutcome::Missing
        } else if 400 <= status <= 599 {
            FetchOutcome::Failed
        } else {
            FetchOutcome::Body
        }),
{
    if status == 404 {
        FetchOutcome::Missing
    } else if 400 <= status && status <= 599 {
        FetchOutcome::Failed
    } else {
        FetchOutcome::Body
    }
}

} // verus!
