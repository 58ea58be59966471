//! User management for pfSense routers.

pub mod document;
pub mod errors;
pub mod mutation;
pub mod rows;
pub mod pieces;
pub mod round_trip;
pub mod taken;
pub mod membership;
pub mod shell;
pub mod users;
pub mod pfsh;
pub mod pfsense;
pub mod commands;
pub mod operations;
pub mod safety;
pub mod config;
pub mod forms;
pub mod ssh;
pub mod outcomes;
pub mod sequels;
pub mod preserved;
pub mod accounts;
pub mod argv;
