//! The operations that the application offers: ingestion of an archive,
//! enrichment of what was ingested, and export to files.

pub mod cluster;
pub mod ingest;
pub mod export;
pub mod readme;
pub mod topics;
