use arxiv_search_rs_mcp_core::html_search::{scrape_search_entries, search_page_to_atom};

const PAGE: &str = r#"
    <li class="arxiv-result">
      <p class="list-title is-inline-block"><a href="https://arxiv.org/abs/2605.11861">arXiv:2605.11861</a></p>
      <p class="title is-5 mathjax">
        Observation of sine-Gordon-like solitons in a spinor Bose-<span class="search-hit mathjax">Einstein</span> condensate
      </p>
    </li>
        "#;

#[test]
fn test_html_scraping_regex() {
    let entries = scrape_search_entries(PAGE);
    assert_eq!(entries.len(), 1);
    assert_eq!(entries[0].0, "2605.11861");
    assert_eq!(
        entries[0].1,
        "Observation of sine-Gordon-like solitons in a spinor Bose-Einstein condensate"
    );
}

#[test]
fn page_becomes_atom_feed() {
    let feed = search_page_to_atom(PAGE);
    assert_eq!(
        feed,
        "<?xml version=\"1.0\" encoding=\"UTF-8\"?><feed xmlns=\"http://www.w3.org/2005/Atom\"><entry><id>http://arxiv.org/abs/2605.11861</id><title>Observation of sine-Gordon-like solitons in a spinor Bose-Einstein condensate</title><link href=\"http://arxiv.org/abs/2605.11861\" rel=\"alternate\" type=\"text/html\"/></entry></feed>"
    );
}

#[test]
fn results_without_title_are_skipped() {
    let page = r#"<li class="arxiv-result"><a href="https://arxiv.org/abs/1706.03762">x</a></li>"#;
    assert!(scrape_search_entries(page).is_empty());
    assert_eq!(
        search_page_to_atom("no results"),
        "<?xml version=\"1.0\" encoding=\"UTF-8\"?><feed xmlns=\"http://www.w3.org/2005/Atom\"></feed>"
    );
}
