//! omni-lint: a language-agnostic framework for building linters.
//!
//! The verified library holds the engine's decisions (diagnostics, source
//! locations, baselines, suppression markers, configuration, reporting, run
//! finalisation, exit policy), the GraphQL example language (lexer, parser,
//! schema model, facts, rules) and the logic of the sandboxed WASM contract
//! (metadata validation, framing, finding mapping, facts merging).

pub mod text;
pub mod diagnostic;
pub mod source;
pub mod baseline;
pub mod report;
pub mod plugin;
pub mod config;
pub mod discovery;
pub mod runner;
pub mod registry;
pub mod cli;
pub mod names;
pub mod facts;
pub mod graphql;
pub mod wasm;
pub mod demo;
pub mod laws;
pub mod todo;
