use arxiv_search_rs_mcp_core::categories::{CS_CR, CS_NI};
use arxiv_search_rs_mcp_core::presets;
use arxiv_search_rs_mcp_core::query::QueryBuilder;

#[test]
fn test_presets() {
    let ddos = presets::ddos_prevention();
    assert!(!ddos.keywords.is_empty());
    assert!(!ddos.categories.is_empty());

    let stack = presets::your_stack();
    assert!(stack.keywords.len() > 10);
}

#[test]
fn builder_collects_keywords_and_categories() {
    let query = QueryBuilder::new()
        .keywords(&["DDoS", "Security"])
        .category(CS_CR)
        .build();
    assert_eq!(query.keywords, vec!["ddos".to_string(), "security".to_string()]);
    assert_eq!(query.categories, vec!["cs.CR".to_string()]);
    assert!(query.exclude_keywords.is_empty());
    assert!(query.date_range.is_none());
}

#[test]
fn builder_single_steps() {
    let query = QueryBuilder::new()
        .keyword("Routing")
        .exclude("Wireless")
        .categories(&[CS_NI, "cs.SY"])
        .since("2024-01")
        .build();
    assert_eq!(query.keywords, vec!["routing".to_string()]);
    assert_eq!(query.exclude_keywords, vec!["wireless".to_string()]);
    assert_eq!(query.categories, vec!["cs.NI".to_string(), "cs.SY".to_string()]);
    assert_eq!(
        query.date_range,
        Some(("2024-01".to_string(), "2025-12".to_string()))
    );
}

#[test]
fn since_keeps_the_end_of_the_range() {
    let query = QueryBuilder::new().since("2023-05").since("2024-02").build();
    assert_eq!(
        query.date_range,
        Some(("2024-02".to_string(), "2025-12".to_string()))
    );
}

#[test]
fn keywords_are_lowercased_beyond_ascii() {
    let query = QueryBuilder::new().keyword("ÉTUDE").build();
    assert_eq!(query.keywords, vec!["étude".to_string()]);
}

#[test]
fn preset_contents() {
    let n = presets::networking();
    assert_eq!(n.keywords.len(), 8);
    assert_eq!(n.keywords[3], "tcp/ip");
    assert_eq!(n.categories, vec!["cs.NI".to_string()]);
    let s = presets::siem_soar();
    assert_eq!(s.keywords.len(), 9);
    assert_eq!(s.categories, vec!["cs.CR".to_string(), "cs.SY".to_string(), "cs.AI".to_string()]);
    assert_eq!(presets::infrastructure_optimization().categories.len(), 4);
    assert_eq!(presets::virtual_hosting().keywords[0], "virtualization");
    assert_eq!(presets::storage_optimization().keywords[7], "i/o optimization");
    assert_eq!(presets::your_stack().keywords.len(), 12);
}
