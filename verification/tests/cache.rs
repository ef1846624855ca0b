use arxiv_search_rs_mcp_core::cache::ArxivCache;

#[test]
fn cache_files_per_paper_and_format() {
    let cache = ArxivCache::new("/home/u/.cache/mcp".to_string());
    assert_eq!(cache.cache_dir(), "/home/u/.cache/mcp");
    assert_eq!(cache.html_path("1234.5678"), "/home/u/.cache/mcp/1234.5678.html");
    assert_eq!(cache.pdf_path("1234.5678"), "/home/u/.cache/mcp/1234.5678.pdf");
}

#[test]
fn cache_paths_join_like_paths() {
    assert_eq!(ArxivCache::new("dir/".to_string()).html_path("x"), "dir/x.html");
    assert_eq!(ArxivCache::new(String::new()).pdf_path("x"), "x.pdf");
    assert_eq!(ArxivCache::new("d".to_string()).pdf_path("/abs/x"), "/abs/x.pdf");
    assert_eq!(ArxivCache::new("d".to_string()).html_path("hep-th/9901001"), "d/hep-th/9901001.html");
}
