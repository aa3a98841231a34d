//! A verified core for a snippet library: the bookkeeping of snippets kept
//! in YAML match files, and the text rules around it.

pub mod text;
pub mod header;
pub mod paths;
pub mod yaml;
pub mod snippet;
pub mod store;
pub mod edit;
pub mod service;
pub mod modulo;
pub mod cli;
pub mod store_laws;
