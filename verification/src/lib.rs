//! Build minimal, multi-platform OCI images from local files.
#![allow(unused_imports)]

pub mod text;
pub mod platform;
pub mod error;
pub mod paths;
pub mod strmap;
pub mod tree;
pub mod digest;
pub mod model;
pub mod archive;
pub mod json;
pub mod oci;
pub mod image;
pub mod layer;
pub mod sources;
pub mod pipeline;
pub mod config;
pub mod cli;
pub mod resolve;
pub mod output;
pub mod registry;
pub mod publish;
pub mod uniko;
