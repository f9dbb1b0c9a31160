//! Log parsing, statistics and anomaly analysis over normalized log records.
pub mod text;
pub mod time;
pub mod json;
pub mod scan;
pub mod parser;
pub mod stats;
pub mod keywords;
pub mod analyzer;
pub mod export;
pub mod report;
pub mod filter;
