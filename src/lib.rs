//! Per-station minimum, mean and maximum over `<station>;<temperature>` lines.
//!
//! The library holds the verified core: the statistics record and its merge,
//! the station key and its digest, the aggregation table, both line parsers
//! and the decisions of the chunking reader.

pub mod config;
pub mod parser;
pub mod reader;
