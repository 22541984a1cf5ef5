//! Code-smell metrics over a folder tree: per-file metric values, their
//! aggregation into folder summaries, and the JSON shape of an analysis.
pub mod text;
pub mod sorted_map;
pub mod paths;
pub mod metrics;
pub mod data_sources;
pub mod analysis_module;
pub mod analysis;
pub mod formatters;
pub mod cli;
pub mod command_line;
