//! A micro agent harness: a line protocol, an append-only ledger, a renderer
//! and the rules of the run loop.

pub mod agent;
pub mod bootstrap;
pub mod cli;
pub mod client;
pub mod config;
pub mod dsl;
pub mod fleet;
pub mod json;
pub mod ledger;
pub mod mods;
pub mod outline;
pub mod pattern;
pub mod plan;
pub mod render;
pub mod request;
pub mod screen;
pub mod session;
pub mod shelld;
pub mod table;
pub mod text;
pub mod tools;
pub mod tui;
pub mod turn;
pub mod update;
pub mod walk;
