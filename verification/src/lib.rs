//! Core engine of a file-routing daemon.
//!
//! The engine turns a noisy stream of raw filesystem-change notifications
//! into a deduplicated, rate-limited sequence of "file ready to route"
//! decisions, and keeps the set of watched directories consistent across
//! live configuration reloads.  All temporal and state-machine behaviour
//! lives here and is verified; reading directories, watching them, moving
//! files and persisting log records are left to the surrounding program.

pub mod accumulator;
pub mod config;
pub mod debounce;
pub mod error;
pub mod hash;
pub mod logging;
pub mod paths;
pub mod route;
pub mod router;
pub mod strutil;
pub mod watchset;
