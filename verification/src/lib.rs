//! Removes duplicate and blank messages from LLM conversation histories.
pub mod dedup;
pub mod json;
pub mod laws;
pub mod meaning;
pub mod message;

pub use dedup::{dedup, dedup_adjacent, dedup_global, duplicate_count, remove_empty, unique_count, DedupScope};
pub use json::Json;
pub use message::keeps_message;
