//! `edit`: open a memo in the editor.
use vstd::prelude::*;
use crate::editor;
use crate::memo::Memo;

verus! {

/// The command line that opens the resolved memo with the editor command
/// `cmd`: the command's words, then the memo's path. `None` when the command
/// has no words.
pub fn run(memo: &Memo, cmd: &str) -> (r: Option<Vec<String>>)
    ensures
        editor::words(cmd@).len() == 0 ==> r is None,
        editor::words(cmd@).len() > 0 ==> (r matches Some(v) && v.deep_view() == editor::words(cmd@).push(
            memo.path@,
        )),
{
    editor::command_line(cmd, memo.path.as_str())
}

} // verus!
