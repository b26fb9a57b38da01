//! `path`: the absolute path of a memo, for scripts.
use vstd::prelude::*;
use crate::memo::Memo;
use crate::path;

verus! {

/// The path to print for the resolved memo: its file, or with `dir` its
/// containing folder (the week folder of a file, the project directory of a
/// project); the file itself when it has no parent.
pub fn run(memo: &Memo, dir: bool) -> (r: String)
    ensures
        !dir ==> r@ == memo.path@,
        dir ==> r@ == match path::path_parent(memo.path@) {
            Some(p) => p,
            None => memo.path@,
        },
{
    if !dir {
        return memo.path.clone();
    }
    match path::parent(memo.path.as_str()) {
        Some(p) => p,
        None => memo.path.clone(),
    }
}

} // verus!
