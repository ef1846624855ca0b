use arxiv_search_rs_mcp_core::tfidf::{tokenize, Vocabulary};

#[test]
fn tokens_are_lowercase_alphanumeric_runs() {
    assert_eq!(
        tokenize("Hello, World! 42x -- a_b"),
        vec!["hello", "world", "42x", "a", "b"]
    );
    assert!(tokenize("  ... !!").is_empty());
}

#[test]
fn tokens_keep_unicode_letters() {
    // Letters beyond ASCII count as alphanumeric and are lowercased too.
    assert_eq!(tokenize("Ünïcode-Test"), vec!["ünïcode", "test"]);
    assert_eq!(tokenize("ÉCOLE"), vec!["école"]);
}

#[test]
fn vocabulary_counts_documents() {
    let corpus = vec!["the cat sat".to_string(), "The dog ran, the end".to_string()];
    let v = Vocabulary::new(&corpus);
    assert_eq!(v.terms, vec!["the", "cat", "sat", "dog", "ran", "end"]);
    assert_eq!(v.doc_freq, vec![2, 1, 1, 1, 1, 1]);
    assert_eq!(v.n_docs, 2);
}

#[test]
fn term_counts_of_a_text() {
    let corpus = vec!["physics of stars".to_string(), "physics stars".to_string()];
    let v = Vocabulary::new(&corpus);
    assert_eq!(v.terms, vec!["physics", "of", "stars"]);
    let (counts, total) = v.term_counts("Stars, stars and physics");
    assert_eq!(counts, vec![1, 0, 2]);
    assert_eq!(total, 4);
    let (counts, total) = v.term_counts("");
    assert_eq!(counts, vec![0, 0, 0]);
    assert_eq!(total, 0);
}

#[test]
fn empty_corpus_has_no_terms() {
    let v = Vocabulary::new(&vec![]);
    assert!(v.terms.is_empty());
    assert_eq!(v.n_docs, 0);
}
