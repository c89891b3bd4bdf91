//! Local-first index over an Apple Messages history: extraction rules,
//! conversation chunking, incremental sync decisions, hybrid retrieval and
//! the MCP protocol, stated and proved as functions on plain values.
pub mod appledate;
pub mod browse;
pub mod chunk;
pub mod cli;
pub mod config;
pub mod contacts;
pub mod digest;
pub mod doctor;
pub mod dryrun;
pub mod embed;
pub mod etl;
pub mod extract;
pub mod filling;
pub mod handles;
pub mod http;
pub mod index;
pub mod intake;
pub mod json;
pub mod laws;
pub mod lists;
pub mod mcp;
pub mod model;
pub mod numeric;
pub mod order;
pub mod paths;
pub mod recut;
pub mod resync;
pub mod retrieve;
pub mod readback;
pub mod reuse;
pub mod search;
pub mod service;
pub mod tables;
pub mod tailnet;
pub mod text;
pub mod time;
pub mod typedstream;
pub mod vectors;
