use arxiv_search_rs_mcp_core::limits::{citation_limit, recommendation_limit, search_max_results};
use arxiv_search_rs_mcp_core::rate_limit::RequestSpacing;
use arxiv_search_rs_mcp_core::s3::{object_file_name, transfer_volume, S3Config};
use arxiv_search_rs_mcp_core::text::decimal_string;

#[test]
fn s3_defaults() {
    let c = S3Config::default();
    assert_eq!(c.bucket, "arxiv");
    assert_eq!(c.region, "us-east-1");
    assert!(c.requester_pays);
    assert_eq!(c.prefix.as_deref(), Some("pdf"));
    assert_eq!(c.max_concurrent_downloads, 10);
    assert_eq!(c.chunk_size_mb, 10);
}

#[test]
fn object_names() {
    assert_eq!(object_file_name("pdf/arXiv_pdf_0001_001.tar"), "arXiv_pdf_0001_001.tar");
    assert_eq!(object_file_name("plain.tar"), "plain.tar");
    assert_eq!(object_file_name("dir/"), "");
}

#[test]
fn transfer_volumes() {
    assert_eq!(transfer_volume(2048, 2), (4, 2));
    assert_eq!(transfer_volume(999, 1), (0, 0));
}

#[test]
fn tool_limits() {
    assert_eq!(search_max_results(None), 10);
    assert_eq!(search_max_results(Some(25)), 25);
    assert_eq!(search_max_results(Some(0)), 1);
    assert_eq!(search_max_results(Some(80)), 50);
    assert_eq!(citation_limit(None), 10);
    assert_eq!(citation_limit(Some(0)), 1);
    assert_eq!(citation_limit(Some(500)), 100);
    assert_eq!(citation_limit(Some(20)), 20);
    assert_eq!(recommendation_limit(Some(70)), 50);
    assert_eq!(recommendation_limit(None), 10);
}

#[test]
fn requests_are_spaced() {
    let mut s = RequestSpacing::new(3);
    assert_eq!(s.reserve(10), 0);
    assert_eq!(s.reserve(11), 2);
    assert_eq!(s.last_request, Some(13));
    assert_eq!(s.reserve(11), 5);
    assert_eq!(s.reserve(30), 0);
    assert_eq!(s.last_request, Some(30));
}

#[test]
fn decimal_digits() {
    assert_eq!(decimal_string(0), "0");
    assert_eq!(decimal_string(7), "7");
    assert_eq!(decimal_string(1234), "1234");
    assert_eq!(decimal_string(usize::MAX), usize::MAX.to_string());
}
