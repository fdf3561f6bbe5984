//! The decisions behind `call`: which procedure is meant, what it is called with, from which
//! account, and what is shown.

pub mod code;
pub mod command;
pub mod error;
pub mod execution;
pub mod exports;
pub mod output;
pub mod run;
pub mod script;
pub mod target;

pub use command::CallCmd;
pub use error::CliError;
