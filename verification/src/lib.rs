//! The core of a flow engine: flows are directed acyclic graphs of nodes,
//! and the engine runs their nodes level by level, merges what parents
//! hand to their children, and lets a failure skip what depends on it.
//!
//! - `graph`, `kahn`, `levels`: adjacency, topological order and levels.
//! - `output`: the values on the edges and their merge.
//! - `runner`: one run of a flow, as a machine that a driver steps.
//! - `trigger`, `seen`: the polling trigger, which dispatches every item
//!   once.
//! - `scheduler`: which flows have a trigger loop.
//! - `slack`, `prompt`, `models`, `config`, `github`, `requests`, `auth`,
//!   `sandbox`: what the adapters around the engine compute.
//! - `strmap`, `text`: maps keyed by strings, and text as characters.
//!
//! Every function states what it returns in terms of a model: strings
//! are sequences of characters, maps and sets are mathematical maps and
//! sets.

pub mod auth;
pub mod config;
pub mod github;
pub mod graph;
pub mod kahn;
pub mod levels;
pub mod models;
pub mod output;
pub mod prompt;
pub mod requests;
pub mod runner;
pub mod sandbox;
pub mod scheduler;
pub mod seen;
pub mod slack;
pub mod strmap;
pub mod text;
pub mod trigger;
