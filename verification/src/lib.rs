//! Resolves what a service is built from out of a graph of manifest files,
//! and plans the sandbox in which its image is built.
//!
//! A service and each library declare their dependencies in a manifest. A
//! resolution starts at the manifest of a service and gathers the closure of
//! what it declares: requirements, libraries and extra paths. The closure,
//! together with a table of locked versions, then gives the plan of a
//! sandbox: what to copy, and the listing of locked requirements.
//!
//! The library computes and decides; it reads and writes no file. Whoever
//! uses it reads the manifests, hands them over as texts, and carries out
//! the plan.
pub mod cli;
pub mod closure;
pub mod commands;
pub mod config;
pub mod fs_utils;
pub mod git;
pub mod index;
pub mod parsing;
pub mod path;
pub mod resolver;
pub mod sandbox;
pub mod search;
pub mod source;
pub mod string_set;
pub mod text;
