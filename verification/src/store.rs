//! What is stored of each conversation.

pub mod db;
