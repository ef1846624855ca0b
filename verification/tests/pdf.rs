use arxiv_search_rs_mcp_core::error::ArxivError;
use arxiv_search_rs_mcp_core::pdf::{extract_text, markdown_or_error};

#[test]
fn empty_bytes_returns_error() {
    assert!(extract_text(b"").is_err());
}

#[test]
fn non_pdf_bytes_returns_error() {
    assert!(extract_text(b"this is not a pdf").is_err());
}

#[test]
fn missing_markdown_is_no_content() {
    match markdown_or_error(Ok(None)) {
        Err(ArxivError::NoContentAvailable(m)) => assert_eq!(m, "PDF produced no markdown output"),
        other => panic!("unexpected {:?}", other),
    }
}

#[test]
fn processor_error_is_parse_error() {
    match markdown_or_error(Err("bad".to_string())) {
        Err(e @ ArxivError::ParseError(_)) => {
            assert_eq!(e.message(), "failed to parse arXiv response: bad")
        }
        other => panic!("unexpected {:?}", other),
    }
    assert_eq!(markdown_or_error(Ok(Some("# T".to_string()))).unwrap(), "# T");
}

#[test]
fn error_messages() {
    assert_eq!(
        ArxivError::InvalidPaperId("x".into()).message(),
        "invalid paper ID: x"
    );
    assert_eq!(
        ArxivError::NoContentAvailable("y".into()).message(),
        "no content available for paper: y"
    );
}
