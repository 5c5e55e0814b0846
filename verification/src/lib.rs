//! Verified core of facet-dev, the development automation tool for Rust
//! workspaces.

pub mod checks;
pub mod cli;
pub mod command;
pub mod encoding;
pub mod generated;
pub mod job;
pub mod metadata;
pub mod order;
pub mod paths;
pub mod pre_push;
pub mod quoting;
pub mod readme;
pub mod status;
pub mod streaming;
pub mod templates;
pub mod text;
