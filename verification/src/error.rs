//! Domain errors.
use vstd::prelude::*;
use crate::memo::Memo;

verus! {

/// The ways a command can fail on the memo tree or its input.
#[derive(Debug)]
pub enum StplError {
    /// No memo matched the query.
    NotFound(String),
    /// Multiple memos matched the query; the caller should list `matches`.
    Ambiguous { query: String, matches: Vec<Memo> },
    /// A target path already exists (e.g. `expand` collision, same-day memo).
    Collision(String),
    /// No editor could be determined.
    NoEditor,
    /// The config file already exists.
    ConfigExists(String),
    /// The provided title was empty or produced an empty slug.
    InvalidTitle(String),
    /// A supplied date could not be parsed.
    InvalidDate(String),
    /// The memo directory is not a git repository (needed by `stpl sync`).
    NotAGitRepo(String),
    /// `git pull` left unmerged paths that need manual resolution.
    MergeConflict(String),
}

} // verus!
