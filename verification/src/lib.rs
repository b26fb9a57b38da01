//! stpl (staple): quick creation and management of markdown notes/memos.
//!
//! This crate is the verified core of the tool: how titles become slugs,
//! how memo paths are built and read back, how frontmatter tags are parsed
//! and rewritten, how a title query is resolved, and how listings are
//! filtered, grouped and rendered. Reading and writing files, the terminal
//! and the command line stay in the program around it.
pub mod cli;
pub mod commands;
pub mod config;
pub mod date;
pub mod editor;
pub mod error;
pub mod laws;
pub mod memo;
pub mod order;
pub mod output;
pub mod path;
pub mod resolve;
pub mod store;
pub mod text;
pub mod unicode;

use vstd::prelude::*;

verus! {

} // verus!
