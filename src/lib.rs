//! A personal manager for release binaries: repository identities, the
//! installation manifest, release asset matching, archive extraction and the
//! decisions of the install and update runs.

pub mod text;
pub mod repo;
pub mod matcher;
pub mod extract;
pub mod manifest;
pub mod orchestrate;
pub mod config;
