//! Parsing of game-server event logs into per-match kill reports.

pub mod error;
pub mod event_type;
pub mod parser;
pub mod report;
pub mod tokens;
