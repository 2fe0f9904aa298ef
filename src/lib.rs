//! Mirrors remote git repositories into local bare repositories.
//!
//! The library holds the decisions; the caller performs the I/O they name:
//! - `github`: short identifiers resolved to repository descriptors, and the
//!   paginated, fork-filtering listing of an owner's repositories;
//! - `mirror`: descriptors, on-disk layout, and the sync state machine
//!   (initialise when absent, check the origin, fetch);
//! - `progress` and `sideband`: transport notifications turned into
//!   structured progress events, with a debounced rate estimate;
//! - `config`: the application's configuration.
pub mod config;
pub mod github;
pub mod github_helper;
pub mod mirror;
pub mod progress;
pub mod sideband;
pub mod text;
