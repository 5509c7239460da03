//! Cobble: a multi-project build automation library.
//!
//! The verified core covers task name resolution, workspace configuration,
//! the job dependency graph, the job scheduler and console output grouping.

pub mod cobble;
pub mod commands;
pub mod cobl;
pub mod concurrent_io;
pub mod config;
pub mod datamodel;
pub mod db;
pub mod execute;
pub mod lua;
pub mod paths;
pub mod task_input;
pub mod text;
pub mod toml_value;
