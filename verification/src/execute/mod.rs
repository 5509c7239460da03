pub mod action;
pub mod execute;
pub mod job_io;
pub mod jobs;
