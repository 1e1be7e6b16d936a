//! Cross-project dependency tooling for a meta-repository: a root directory
//! holding several independently versioned projects declared by a manifest.
//!
//! The crate builds the cross-project dependency graph from plain descriptor
//! data, walks it depth-first in post-order with a visited-set guard, models
//! the link / unlink / copy operations on a filesystem map, and compares
//! dotted version strings for the upgrade mode.  Reading descriptor files,
//! spawning the package manager and touching the real filesystem are left to
//! the surrounding binary; everything here is pure and verified.

pub mod models;
pub mod strings;
pub mod versioning;
pub mod graph;
pub mod traverse;
pub mod paths;
pub mod fsops;
pub mod laws;
pub mod upgrade;
