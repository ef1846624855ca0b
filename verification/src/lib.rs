//! Verified text preparation and retrieval logic for arXiv papers.
pub mod text;
pub mod content;
pub mod error;
pub mod paper;
pub mod segmentation;
pub mod tfidf;
pub mod ranking;
pub mod html_search;
pub mod pdf;
pub mod query;
pub mod categories;
pub mod presets;
pub mod s3;
pub mod rate_limit;
pub mod limits;
pub mod storage;
pub mod cache;
pub mod endpoints;
