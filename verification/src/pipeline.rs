//! The ingestion pipeline: archive reading, record framing, linearization
//! and normalization.

pub mod framing;
pub mod json_parser;
pub mod traversal;
pub mod normalizer;
pub mod zip_reader;
