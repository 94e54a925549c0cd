//! Menu ingestion and lookup engine.
//!
//! Raw menu text from heterogeneous sources (extracted PDF pages, scraped web
//! page blocks) is normalized, segmented and turned into canonical `Item`
//! records, deduplicated by a content hash over name, ingredients and
//! restaurant, and served through an inverted token index.

pub mod extract;
pub mod index;
pub mod item;
pub mod normalize;
pub mod parse;
pub mod store;
pub mod text;
