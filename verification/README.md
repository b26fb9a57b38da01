# stpl (staple)

Quick creation and management of markdown notes from the command line.
Memos are plain `.md` files in a `<year>/<ISO week>/<iso-date>-<slug>.md`
tree under the memo directory (default `~/stpls`).

## Layout

- `src/` is the verified core, written for Verus: slugs and titles, memo
  paths and how they read back, frontmatter tags and titles, templates,
  resolution of a title query, filtering, grouping and rendering of listings,
  search, tag counts, the decisions of each command, and the `sync` state
  machine. Every function states its behaviour in `requires`/`ensures`;
  `src/laws.rs` holds the properties that relate several functions.
- `app/` is the program around it: argument parsing, the configuration file,
  walking and writing the memo tree, the editor, git, and the terminal.
- `tests/` runs the library on concrete values.
