//! The commands of the command line, as values. Parsing the arguments into
//! them belongs to the program around this library.
use vstd::prelude::*;

verus! {

/// A parsed command line.
#[derive(Debug)]
pub struct Cli {
    pub command: Command,
}

/// The subcommands.
#[allow(inconsistent_fields)]
#[derive(Debug)]
pub enum Command {
    /// Create the config file (`~/.config/stpl.toml`).
    Init,
    /// Create a new memo with the given title; without `message` the memo
    /// opens in the editor.
    New { title: String, message: Option<String> },
    /// Open a memo in the editor.
    Edit { title: String },
    /// Print a memo's absolute path, or with `dir` its containing folder.
    Path { title: String, dir: bool },
    /// Print a memo's contents, optionally without the frontmatter.
    Show { title: String, no_frontmatter: bool },
    /// Append a line to an existing memo.
    Append { title: String, message: String },
    /// Rename a memo: re-slug and move it, keeping its date and folder.
    Rename { title: String, new_title: String },
    /// Full-text search across memo bodies.
    Search {
        query: String,
        format: Format,
        after: Option<String>,
        before: Option<String>,
        tags: Vec<String>,
    },
    /// Commit, pull and push the memo directory.
    Sync,
    /// Delete a memo; `yes` skips the confirmation.
    Del { title: String, yes: bool },
    /// Expand a memo into a project directory.
    Expand { title: String },
    /// Add tags to a memo (duplicates are ignored).
    Tag { title: String, tags: Vec<String> },
    /// Remove tags from a memo (case-insensitive; missing tags ignored).
    Untag { title: String, tags: Vec<String> },
    /// List all tags with their memo counts.
    Tags { format: Format },
    /// Print an overview of memos grouped by folder.
    Overview { format: Format, after: Option<String>, before: Option<String>, tags: Vec<String> },
}

/// Output formats.
#[derive(Clone, Copy, Debug, PartialEq, Eq, Structural)]
pub enum Format {
    /// Plain text, optimized for agents (default).
    Text,
    /// JSON.
    Json,
    /// Nicely formatted markdown.
    Markdown,
    /// Markdown with one section per memo and a preview of its body.
    MarkdownVerbose,
    /// Markdown rendered to a file and opened in the editor.
    Editor,
}

} // verus!
