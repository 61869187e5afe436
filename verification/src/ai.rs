//! The enrichment service: what is sent to it and what comes back.

pub mod prompts;
pub mod batch;
