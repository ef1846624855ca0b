# arxiv_search_rs_mcp_core

Text preparation and retrieval logic for arXiv papers, written in Verus and proved
against its contracts.

- `src/` — the verified library:
  - `content`: markdown normalisation, reference/noise pruning, character-window
    chunking with break points, sentence segments, and cluster chunk assembly;
  - `segmentation`: Bron–Kerbosch maximal cliques and the clique-based merging of
    segments into clusters (a partition of the segments);
  - `tfidf`, `ranking`: tokens, vocabulary and document frequencies, and best-first
    ranking of scored items;
  - `html_search`, `pdf`: the arXiv search-page scraper (Atom feed output) and PDF
    text extraction, over `regex` and `pdf-inspector`;
  - `query`, `presets`, `categories`: search query building;
  - `cache`, `endpoints`, `storage`, `rate_limit`, `limits`, `s3`: file and URL
    layout, HTTP status handling, database path checks, request spacing, tool limits
    and S3 bookkeeping;
  - `text`, `paper`, `error`: shared string helpers and data types.
- `tests/` — tests of the library on concrete values.
- `app/` — the native side: HTTP client, on-disk cache, SQLite retrieval database,
  S3 bulk download, and the floating-point parts (TF-IDF vectors, similarity
  statistics, mean pooling), with serde-ready copies of the library's types.
