pub mod cmd;
pub mod data;
pub mod path;
pub mod s11n;
pub mod value;
pub mod order;
