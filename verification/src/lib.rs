//! Command rewriting: rules that match commands literally or by regular
//! expression and replace them, with the decisions of the command-line tool.
pub mod text;
pub mod models;
pub mod error;
pub mod outside;
pub mod engine;
pub mod order;
pub mod config;
pub mod choice;
pub mod cli;
pub mod shell_hook;
pub mod suggest;
pub mod report;
pub mod executor;
