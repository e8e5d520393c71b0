//! The `liteenc` command: what its arguments mean, and what it decides.
pub mod args;
pub mod run;
