use arxiv_search_rs_mcp_core::ranking::top_ranked;

#[test]
fn best_first_with_ties_in_order() {
    assert_eq!(top_ranked(&vec![0, 5, 3, 5, 1], 3), vec![1, 3, 2]);
}

#[test]
fn fewer_positive_items_than_the_limit() {
    assert_eq!(top_ranked(&vec![0, 5, 3, 5, 1], 10), vec![1, 3, 2, 4]);
    assert!(top_ranked(&vec![0, 0], 5).is_empty());
}

#[test]
fn zero_limit_takes_nothing() {
    assert!(top_ranked(&vec![7, 8], 0).is_empty());
    assert!(top_ranked(&vec![], 3).is_empty());
}
