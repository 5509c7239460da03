pub mod execute;
pub mod query;
