use arxiv_search_rs_mcp_core::endpoints::{
    citations_url, html_status_outcome, html_url, is_success, pdf_url,
    recommendations_url, FetchOutcome,
};

#[test]
fn endpoint_addresses() {
    assert_eq!(html_url("1706.03762"), "https://arxiv.org/html/1706.03762");
    assert_eq!(pdf_url("1706.03762v2"), "https://arxiv.org/pdf/1706.03762v2");
    assert_eq!(
        citations_url("1706.03762"),
        "https://api.semanticscholar.org/graph/v1/paper/ArXiv:1706.03762/citations"
    );
    assert_eq!(
        recommendations_url("1706.03762"),
        "https://api.semanticscholar.org/recommendations/v1/papers/forpaper/ArXiv:1706.03762"
    );
}

#[test]
fn status_meanings() {
    assert!(is_success(200));
    assert!(is_success(299));
    assert!(!is_success(304));
    assert_eq!(html_status_outcome(200), FetchOutcome::Body);
    assert_eq!(html_status_outcome(404), FetchOutcome::Missing);
    assert_eq!(html_status_outcome(500), FetchOutcome::Failed);
    assert_eq!(html_status_outcome(302), FetchOutcome::Body);
}
