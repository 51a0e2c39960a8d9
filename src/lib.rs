pub mod command;
pub mod error;
pub mod resp;
