//! Statistics over chat messages that mention a deleted-user placeholder:
//! relevance filtering, per-author grouping and deduplication, tokenization,
//! word-frequency tables and their aggregation.
pub mod analysis;
pub mod frequency;
pub mod grouping;
pub mod message;
pub mod order;
pub mod text;
