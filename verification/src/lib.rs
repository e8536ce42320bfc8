//! Crawl-to-index pipeline: a frontier-managed crawler, an HTML token and
//! link extractor, and an inverted index that accumulates postings in memory
//! and spills them to a flat byte region.

pub mod crawler;
pub mod disk;
pub mod document;
pub mod frontier;
pub mod html;
pub mod indexer;
pub mod order;
pub mod parser;
pub mod postings;
pub mod text;
pub mod walk;
