//! `rename`: re-slug and move a memo, keeping its date and folder.
use vstd::prelude::*;
use crate::error::StplError;
use crate::memo::{self, Memo, MemoKind};
use crate::path;
use crate::store::{self, RenamePlan, StoreError};
use crate::text;

verus! {

/// `renamed '<old>' -> '<new>' (<path>)`.
pub open spec fn renamed_notice(old: Seq<char>, new: Seq<char>, path: Seq<char>) -> Seq<char> {
    "renamed '"@ + old + "' -> '"@ + new + "' ("@ + path + seq![')']
}

/// Plan the rename of the resolved memo to `new_title` (as
/// `store::rename` does) and report it with the memo's new path. The title
/// inside the file is rewritten with `memo::rewrite_title`.
pub fn run(memo: &Memo, new_title: &str) -> (r: Result<(RenamePlan, String), StoreError>)
    ensures
        store::slug_of_is_empty(new_title@) ==> (r matches Err(e) && (e matches StoreError::Stpl(
            StplError::InvalidTitle(t),
        ) && t@ == new_title@)),
        !store::slug_of_is_empty(new_title@) ==> match memo.kind {
            MemoKind::File => match path::path_parent(memo.path@) {
                None => r matches Err(e) && store::is_message(e, store::no_parent_msg()),
                Some(dir) => r matches Ok(p) && {
                    let target = path::join_path(
                        dir,
                        memo::stem_of(memo.date, memo::slug_of(new_title@)) + seq!['.', 'm', 'd'],
                    );
                    &&& p.0.new_slug@ == memo::slug_of(new_title@)
                    &&& p.0.source@ == memo.path@
                    &&& p.0.target@ == target
                    &&& p.0.moves == !path::same_path(target, memo.path@)
                    &&& p.0.new_path@ == target
                },
            },
            MemoKind::Project => match path::path_parent(memo.path@) {
                None => r matches Err(e) && store::is_message(e, store::no_project_parent_msg()),
                Some(dir) => match path::path_parent(dir) {
                    None => r matches Err(e) && store::is_message(e, store::no_grandparent_msg()),
                    Some(up) => r matches Ok(p) && {
                        let target = path::join_path(up, memo::stem_of(memo.date, memo::slug_of(new_title@)));
                        &&& p.0.new_slug@ == memo::slug_of(new_title@)
                        &&& p.0.source@ == dir
                        &&& p.0.target@ == target
                        &&& p.0.moves == !path::same_path(target, dir)
                        &&& p.0.new_path@ == path::join_path(target, memo::project_md())
                    },
                },
            },
        },
        r matches Ok(p) ==> p.1@ == renamed_notice(memo.title@, new_title@, p.0.new_path@),
{
    let plan = store::rename(memo, new_title)?;
    let mut v: Vec<char> = Vec::new();
    text::push_str(&mut v, "renamed '");
    text::push_str(&mut v, memo.title.as_str());
    text::push_str(&mut v, "' -> '");
    text::push_str(&mut v, new_title);
    text::push_str(&mut v, "' (");
    text::push_str(&mut v, plan.new_path.as_str());
    v.push(')');
    let notice = text::string_from_chars(v.as_slice());
    Ok((plan, notice))
}

} // verus!
