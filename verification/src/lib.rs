//! Decoder for variable-length binary column data stored in paginated,
//! dictionary- or plain-encoded pages, with validity tracking and chunked,
//! page-continuation driving.

pub mod binary;
pub mod dict;
pub mod driver;
pub mod error;
pub mod laws;
pub mod page;
pub mod parquet;
pub mod plain;
pub mod state;
