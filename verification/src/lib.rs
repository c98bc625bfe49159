//! Resolution of package dependencies.
//!
//! Given top-level packages, a resolution finds all packages needed to build them, by asking a
//! registry for the dependencies that they and the packages found declare. The registry is asked by
//! the caller: a resolution proceeds in steps, from query to query (see [`resolver`]).
//!
//! - [`package`]: packages, their sources and the dependencies they declare.
//! - [`version`]: whether a version satisfies a version requirement.
//! - [`graph`]: the graph of resolved packages.
//! - [`exploration`]: the mathematical model of a resolution.
//! - [`requirement`]: what resolved packages require of each other.
//! - [`failure`]: why a resolution fails, and the messages for it.
//! - [`resolver`]: the resolution itself.
//! - [`conversation`]: a resolution and the registry it asks, from query to query.
//! - [`operations`]: what each step of a resolution does.
//! - [`history`]: what a resolution has come to, told by what it was given.
//! - [`laws`]: what holds of every resolution.
//! - [`representation`]: what values stand for.
//! - [`text`]: the order of texts, sorting and joining them.
#![allow(unused_imports)]

pub mod conversation;
pub mod exploration;
pub mod failure;
pub mod graph;
pub mod history;
pub mod laws;
pub mod operations;
pub mod package;
pub mod representation;
pub mod requirement;
pub mod resolver;
pub mod text;
mod upkeep;
pub mod version;
