//! `expand`: turn a file memo into a project directory.
use vstd::prelude::*;
use crate::memo::{self, Memo, MemoKind};
use crate::path;
use crate::store::{self, ExpandPlan, StoreError};
use crate::text;

verus! {

/// `expanded into project <path>`.
pub open spec fn expanded_notice(target: Seq<char>) -> Seq<char> {
    "expanded into project "@ + target
}

/// Plan the expansion of the resolved memo into `<stem>/project.md` and
/// report the new path. A memo that is already a project, or whose path has
/// no parent or stem, is refused.
pub fn run(memo: &Memo) -> (r: Result<(ExpandPlan, String), StoreError>)
    ensures
        memo.kind == MemoKind::Project ==> (r matches Err(e) && store::is_message(
            e,
            store::already_project_msg(memo.title@),
        )),
        memo.kind == MemoKind::File ==> match path::path_parent(memo.path@) {
            None => r matches Err(e) && store::is_message(e, store::no_parent_msg()),
            Some(dir) => match path::path_file_stem(memo.path@) {
                None => r matches Err(e) && store::is_message(e, store::no_stem_msg()),
                Some(stem) => r matches Ok(p) && {
                    &&& p.0.project_dir@ == path::join_path(dir, stem)
                    &&& p.0.target@ == path::join_path(path::join_path(dir, stem), memo::project_md())
                    &&& p.1@ == expanded_notice(p.0.target@)
                },
            },
        },
{
    let plan = store::expand(memo)?;
    let mut v: Vec<char> = Vec::new();
    text::push_str(&mut v, "expanded into project ");
    text::push_str(&mut v, plan.target.as_str());
    let notice = text::string_from_chars(v.as_slice());
    Ok((plan, notice))
}

} // verus!
