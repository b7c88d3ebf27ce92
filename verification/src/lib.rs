//! A small web-crawler library: a persistent page store that doubles as the
//! crawl frontier, an HTML anchor-target extractor, a fetch-outcome
//! classifier, and a keyword ranker over the stored corpus.
//!
//! The store keeps one row per discovered page and is modelled as a
//! sequence of page models in id order; every operation layered on the
//! backing relational engine is specified against that model. The text
//! scanning that the extractor, the search and the ranker share is
//! verified down to character sequences.

pub mod crawl;
pub mod page;
pub mod rank;
pub mod scrape;
pub mod store;
pub mod text;
