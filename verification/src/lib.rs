//! A build system as a library: build graphs, an incremental executor state
//! machine, a build database, and a parser for Ninja build files.

pub mod bytes;
pub mod cli;
pub mod collections;
pub mod db;
pub mod exec;
pub mod graph;
pub mod ninja;
pub mod progress;
pub mod text;
pub mod world;
