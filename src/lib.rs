//! Monitor discovery and layout reconciliation for the RandR extension of X11.
//!
//! Monitors are known by a number derived from their EDID block, not by the
//! connector they hang off. Everything here works on plain values read from
//! the server; the requests themselves are made by the caller.

pub mod identity;
pub mod error;
pub mod output;
pub mod monitor;
pub mod discovery;
pub mod setup;
pub mod config;
