//! Sessions: their identity, their transcripts and the stores that hold them.
pub mod answers;
pub mod branch;
pub mod fork;
pub mod import;
pub mod jsonl;
pub mod key;
pub mod lineage;
pub mod listing;
pub mod lite;
pub mod mirror;
pub mod mutations;
pub mod path;
pub mod prompt;
pub mod resume;
pub mod shown;
pub mod sorting;
pub mod store;
pub mod store_queries;
pub mod summary;
pub mod transcript;
pub mod validation;
pub mod windows;
