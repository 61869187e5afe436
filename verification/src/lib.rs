//! Ingestion of chat-export archives and batch enrichment of the
//! conversations they hold.

pub mod ai;
pub mod commands;
pub mod pipeline;
pub mod sorting;
pub mod store;
pub mod text;
