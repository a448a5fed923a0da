//! Dependency graphs of a monorepo and the impact analysis built on them:
//! which components a change affects, and in what order to build them.
pub mod adjacency;
pub mod cli;
pub mod dependency;
pub mod git;
pub mod graph;
pub mod impact;
pub mod paths;
pub mod read;
pub mod text;
pub mod vertex;
pub mod write;
