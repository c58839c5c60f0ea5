//! The command line front end: argument parsing and the decisions behind
//! each command.

pub mod args;
pub mod commands;
pub mod detect;
pub mod report;
