//! Verified core of a local launcher that indexes the commands already
//! present in a folder of repositories (npm scripts, Makefile targets),
//! flags destructive ones, and keeps the shapes of its run history.

pub mod text;
pub mod discovery;
pub mod safety;
pub mod db;
pub mod commands;
pub mod exec;
