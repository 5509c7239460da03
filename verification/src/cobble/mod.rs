pub mod build_units;
pub mod datamodel;
pub mod resolve;
pub mod task;
pub mod workspace;
