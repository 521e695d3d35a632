//! The `uniko` command line: packing binaries into images, and its configuration file.
pub mod cli;
pub mod config;
