pub mod agent;
pub mod error;
pub mod json;
pub mod sessions;
pub mod streaming;
pub mod text;
pub mod time;
pub mod transport;
pub mod types;
pub mod unicode;
