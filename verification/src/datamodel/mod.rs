pub mod action;
pub mod artifact;
pub mod build_env;
pub mod dependency;
pub mod tool;
pub mod types;
pub mod validate;
