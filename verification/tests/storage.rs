use arxiv_search_rs_mcp_core::storage::validate_database_path;

#[test]
fn test_path_traversal_protection() {
    let result = validate_database_path("/tmp/../../../etc/passwd");
    assert!(result.is_err());
    assert!(result.unwrap_err().contains("traversal"));
}

#[test]
fn plain_paths_are_accepted() {
    assert!(validate_database_path("/home/me/.cache/arxiv_rag.db").is_ok());
    assert!(validate_database_path("data/..db").is_ok());
    assert!(validate_database_path("..").is_err());
}
