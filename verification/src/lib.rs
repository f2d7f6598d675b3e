//! Utilities for inspecting a FiveM game-server deployment.
//!
//! The heart of the crate is the configuration parser in [`config`]: a
//! directive-driven, quote-aware line interpreter for the `.cfg` files a
//! server starts from, with recursive `exec` file inclusion driven through an
//! explicit parser state machine. The [`artifacts`] module models a client
//! for the build-distribution server, and [`resources`] matches declared
//! resources against a scanned directory listing.

pub mod artifacts;
pub mod config;
pub mod loader;
pub mod numbers;
pub mod pretty;
pub mod resources;
pub mod strings;
pub mod tokenize;
