//! Module import graph engine for a TypeScript/JavaScript source tree.
//!
//! The library interns file paths and module identities, expands every
//! legitimate import spelling of each source file into an alias map,
//! resolves raw import strings into edges of a directed module graph,
//! and answers bounded reachability queries over that graph.

pub mod depth_first_expansion;
pub mod file_system;
pub mod cli;
pub mod dependency_graph;
pub mod dependency_graph_store;
pub mod import_visitor;
pub mod module;
pub mod module_graph;
pub mod tsconfig;
