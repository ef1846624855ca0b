use arxiv_search_rs_mcp_core::content::{
    assemble_cluster, chunk_text, cluster_chunks, collapse_blank_lines, normalize_markdown, prepare_paper,
    prune_markdown, segments_from_text, PreparationOptions,
};
use arxiv_search_rs_mcp_core::paper::{Author, Paper};

#[test]
fn normalizes_duplicate_blank_lines() {
    let input = "a\r\n\r\n\r\nb";
    assert_eq!(normalize_markdown(input), "a\n\nb");
}

#[test]
fn prunes_references_section() {
    let input = "Intro\n\nReferences\n[1] one\n[2] two";
    let output = prune_markdown(input, true);
    assert_eq!(output, "Intro");
}

#[test]
fn prunes_deep_reference_headings() {
    let input = "Intro\n\n### References\n[1] one\n[2] two";
    assert_eq!(prune_markdown(input, true), "Intro");
}

#[test]
fn prunes_acknowledgments_section() {
    let input = "Intro\n\n## Acknowledgments\nThanks to everyone.\n\nReferences\n[1] one";
    assert_eq!(prune_markdown(input, true), "Intro");
}

#[test]
fn prunes_references_and_notes() {
    let input = "Body text\n\n# References and Notes\n[1] foo";
    assert_eq!(prune_markdown(input, true), "Body text");
}

#[test]
fn preserves_references_when_disabled() {
    let input = "Intro\n\nReferences\n[1] one";
    assert_eq!(prune_markdown(input, false), "Intro\n\nReferences\n[1] one");
}

#[test]
fn chunks_long_text() {
    let input = "para one\n\npara two\n\npara three";
    let chunks = chunk_text(input, 12, 0);
    assert!(chunks.len() >= 2);
    assert_eq!(chunks[0].index, 0);
}

#[test]
fn prepares_paper_content() {
    let paper = Paper {
        id: "1234.5678".into(),
        title: "Paper".into(),
        authors: vec![Author {
            name: "A".into(),
            affiliations: vec![],
        }],
        abstract_text: "Abstract".into(),
        categories: vec![],
        published: "2024".into(),
        url: "https://arxiv.org/abs/1234.5678".into(),
        doi: None,
        journal_ref: None,
    };
    let prepared = prepare_paper(
        paper,
        "html".to_string(),
        "Intro\n\nReferences\n[1]",
        PreparationOptions::default(),
    );
    assert_eq!(prepared.source, "html");
    assert_eq!(prepared.pruned_markdown, "Intro");
    assert!(!prepared.chunks.is_empty());
}

#[test]
fn preparation_defaults() {
    let o = PreparationOptions::default();
    assert!(o.prune_references);
    assert_eq!(o.chunk_chars, 4000);
    assert_eq!(o.chunk_overlap, 200);
}

#[test]
fn small_chunk_sizes_are_raised_to_a_thousand() {
    let paper = Paper {
        id: "1".into(),
        title: "T".into(),
        authors: vec![],
        abstract_text: String::new(),
        categories: vec![],
        published: String::new(),
        url: String::new(),
        doi: None,
        journal_ref: None,
    };
    let text = "word ".repeat(300);
    let options = PreparationOptions {
        prune_references: false,
        chunk_chars: 10,
        chunk_overlap: 50,
    };
    let prepared = prepare_paper(paper, "pdf".to_string(), &text, options);
    // 1499 characters after trimming, cut in windows of 1000 with an overlap of 9;
    // the tail is taken in ever shorter windows.
    assert_eq!(prepared.raw_markdown.chars().count(), 1499);
    assert_eq!(prepared.chunks.len(), 12);
    assert_eq!((prepared.chunks[0].start_char, prepared.chunks[0].end_char), (0, 999));
    assert_eq!((prepared.chunks[1].start_char, prepared.chunks[1].end_char), (990, 1494));
    assert_eq!((prepared.chunks[2].start_char, prepared.chunks[2].end_char), (1485, 1499));
    assert_eq!(prepared.chunks[11].end_char, 1499);
}

#[test]
fn collapsing_keeps_one_blank_line() {
    assert_eq!(collapse_blank_lines("  a  \n\n \n\t\nb\n\n"), "a\n\nb");
    assert_eq!(collapse_blank_lines(""), "");
}

#[test]
fn noise_lines_are_dropped() {
    let input = "arXiv:2401.00001v1\nBody line\nCopyright 2024 someone\nPreprint under review\nAvailable at x\nEnd";
    assert_eq!(prune_markdown(input, false), "Body line\nEnd");
}

#[test]
fn other_reference_headings() {
    assert_eq!(prune_markdown("A\n## Bibliography\nx", true), "A");
    assert_eq!(prune_markdown("A\nReferences & Notes\nx", true), "A");
    assert_eq!(prune_markdown("A\nACKNOWLEDGEMENTS\nx", true), "A");
    assert_eq!(prune_markdown("A\nReferenced work\nx", true), "A\nReferenced work\nx");
}

#[test]
fn blank_text_has_no_chunks() {
    assert!(chunk_text(" \n\t ", 100, 10).is_empty());
}

#[test]
fn chunks_break_at_paragraphs() {
    let first = "a".repeat(70);
    let text = format!("{first}\n\n{}", "b".repeat(60));
    let chunks = chunk_text(&text, 100, 0);
    // The window [0, 100) breaks at the blank line after 70 characters.
    assert_eq!(chunks[0].end_char, 70);
    assert_eq!(chunks[0].text, first);
    assert_eq!(chunks[1].start_char, 70);
    assert_eq!(chunks[1].end_char, 132);
    assert_eq!(chunks.len(), 2);
    assert_eq!(chunks[1].index, 1);
}

#[test]
fn chunks_cover_every_character() {
    let text = "The quick brown fox jumps over the lazy dog. ".repeat(12);
    let n = text.chars().count();
    let chunks = chunk_text(&text, 120, 20);
    for p in 0..n {
        assert!(chunks.iter().any(|c| c.start_char <= p && p < c.end_char), "{p} not covered");
    }
    for (k, c) in chunks.iter().enumerate() {
        assert_eq!(c.index, k);
        let expected: String = text.chars().skip(c.start_char).take(c.end_char - c.start_char).collect();
        assert_eq!(c.text, expected);
    }
}

#[test]
fn segments_keep_long_trimmed_pieces() {
    let text = "Short. This sentence is long enough to keep! tiny\n  Another line that passes the bar  ?x";
    assert_eq!(
        segments_from_text(text),
        vec![
            "This sentence is long enough to keep".to_string(),
            "Another line that passes the bar".to_string()
        ]
    );
    // Twenty bytes exactly is enough; nineteen is not.
    assert_eq!(segments_from_text("abcdefghijklmnopqrst."), vec!["abcdefghijklmnopqrst".to_string()]);
    assert!(segments_from_text("abcdefghijklmnopqrs.").is_empty());
    // Characters, not bytes, are counted.
    assert!(segments_from_text("éééééééééé").is_empty());
    assert_eq!(
        segments_from_text("éééééééééééééééééééé"),
        vec!["éééééééééééééééééééé".to_string()]
    );
}

#[test]
fn clusters_join_member_texts() {
    let texts = vec!["alpha".to_string(), "beta".to_string(), "gamma".to_string()];
    let c = assemble_cluster(3, &texts, &vec![0, 2]);
    assert_eq!(c.index, 3);
    assert_eq!(c.text, "alpha\n\ngamma");
    assert_eq!(c.start_char, 0);
    assert_eq!(c.end_char, 12);
    assert_eq!(c.cluster_id.as_deref(), Some("hierarchical_3"));
    assert_eq!(c.segments.len(), 2);
    assert_eq!((c.segments[0].start_char, c.segments[0].end_char), (0, 5));
    assert_eq!((c.segments[1].start_char, c.segments[1].end_char), (7, 12));
    assert_eq!(c.segments[1].index, 1);
    assert_eq!(c.segments[1].text, "gamma");
    assert_eq!(c.segments[0].cluster_id.as_deref(), Some("cluster_3"));
    assert!(c.parent_id.is_none());
}

#[test]
fn one_chunk_per_cluster() {
    let texts = vec!["one".to_string(), "two".to_string(), "three".to_string()];
    let chunks = cluster_chunks(&texts, &vec![vec![1], vec![0, 2]]);
    assert_eq!(chunks.len(), 2);
    assert_eq!(chunks[0].text, "two");
    assert_eq!(chunks[0].cluster_id.as_deref(), Some("hierarchical_0"));
    assert_eq!(chunks[1].text, "one\n\nthree");
    assert_eq!(chunks[1].index, 1);
    assert_eq!(chunks[1].segments[1].cluster_id.as_deref(), Some("cluster_1"));
}

#[test]
fn normalizing_twice_changes_nothing() {
    let input = "  Title  \r\n\r\n\r\n\tBody line\t\r\nnext\r\n\n\n  \n";
    let once = normalize_markdown(input);
    assert_eq!(once, "Title\n\n\tBody line\nnext");
    assert_eq!(normalize_markdown(&once), once);
}

#[test]
fn back_matter_after_a_heading_does_not_matter() {
    let t = "Intro\npara  \n";
    let with_refs = format!("{t}\nReferences\n[1] one\nmore text");
    assert_eq!(prune_markdown(&with_refs, true), prune_markdown(t, true));
    assert_eq!(prune_markdown(&with_refs, true), "Intro\npara");
}

#[test]
fn headings_ignore_case_and_hashes() {
    assert_eq!(prune_markdown("A\n### BIBLIOGRAPHY\nx", true), "A");
    assert_eq!(prune_markdown("A\nreferences AND notes\nx", true), "A");
    assert_eq!(prune_markdown("A\n### Referenced works\nx", true), "A\n### Referenced works\nx");
}
