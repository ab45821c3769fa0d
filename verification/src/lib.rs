//! Core of a web-serial scraper: a disk-backed fetch cache, a batch mutation
//! engine over parsed markup, a page normalizer that cleans hand-authored
//! HTML into self-contained XHTML fragments, a chapter-chain walker, and a
//! content-addressed image deduplicator.

pub mod books;
pub mod dom;
pub mod errors;
pub mod fetch;
pub mod images;
pub mod media;
pub mod obfuscation;
pub mod page;
pub mod query;
pub mod serialize;
pub mod strutil;
pub mod style;
pub mod urls;
pub mod walker;
