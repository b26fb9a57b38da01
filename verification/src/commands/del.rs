//! `del`: delete a memo after confirmation.
use vstd::prelude::*;
use crate::commands::util;
use crate::memo::{Memo, MemoKind};
use crate::output::{self, Style};
use crate::path;
use crate::store::{self, StoreError};
use crate::text;

verus! {

/// The confirmation question for deleting `m`; for a project it makes clear
/// that the whole directory goes.
pub open spec fn prompt_text(style: Style, m: Memo) -> Seq<char> {
    let line = output::memo_line_text(style, m.title@, m.path@);
    if m.kind == MemoKind::Project {
        let dir = match path::path_parent(m.path@) {
            Some(d) => d,
            None => m.path@,
        };
        "Delete project "@ + line + " and its entire directory "@ + dir + "? [y/N] "@
    } else {
        "Delete "@ + line + "? [y/N] "@
    }
}

/// The question asked before deleting the resolved memo.
pub fn prompt(style: &Style, memo: &Memo) -> (r: String)
    ensures
        r@ == prompt_text(*style, *memo),
{
    let line = style.memo_line(memo);
    let mut v: Vec<char> = Vec::new();
    if memo.kind == MemoKind::Project {
        let dir = match path::parent(memo.path.as_str()) {
            Some(d) => d,
            None => memo.path.clone(),
        };
        text::push_str(&mut v, "Delete project ");
        text::push_str(&mut v, line.as_str());
        text::push_str(&mut v, " and its entire directory ");
        text::push_str(&mut v, dir.as_str());
        text::push_str(&mut v, "? [y/N] ");
    } else {
        text::push_str(&mut v, "Delete ");
        text::push_str(&mut v, line.as_str());
        text::push_str(&mut v, "? [y/N] ");
    }
    text::string_from_chars(v.as_slice())
}

/// The answer, trimmed, is `y` or `yes`, ASCII case aside.
pub open spec fn confirms(answer: Seq<char>) -> bool {
    util::same_ignoring_ascii_case(text::trim(answer), "y"@) || util::same_ignoring_ascii_case(
        text::trim(answer),
        "yes"@,
    )
}

/// Whether the answer to the question confirms the deletion.
pub fn confirmed(answer: &str) -> (r: bool)
    ensures
        r == confirms(answer@),
{
    let c = text::chars_of(answer);
    let (x, y) = text::trim_range(&c, 0, c.len());
    proof {
        assert(c@.subrange(0, c.len() as int) =~= c@);
    }
    let mut t: Vec<char> = Vec::new();
    text::push_range(&mut t, &c, x, y);
    let ts = text::string_from_chars(t.as_slice());
    util::eq_ignore_ascii_case(ts.as_str(), "y") || util::eq_ignore_ascii_case(ts.as_str(), "yes")
}

/// `deleted project <path>` or `deleted memo <path>`.
pub open spec fn deleted_notice(m: Memo) -> Seq<char> {
    "deleted "@ + (if m.kind == MemoKind::Project {
        "project"@
    } else {
        "memo"@
    }) + seq![' '] + m.path@
}

/// What deleting the resolved memo removes (`store::delete`) and the report.
pub fn run(memo: &Memo) -> (r: Result<((String, bool), String), StoreError>)
    ensures
        memo.kind == MemoKind::File ==> (r matches Ok(p) && p.0.0@ == memo.path@ && !p.0.1),
        memo.kind == MemoKind::Project ==> match path::path_parent(memo.path@) {
            None => r matches Err(e) && store::is_message(e, store::no_project_parent_msg()),
            Some(dir) => r matches Ok(p) && p.0.0@ == dir && p.0.1,
        },
        r matches Ok(p) ==> p.1@ == deleted_notice(*memo),
{
    let target = store::delete(memo)?;
    let mut v: Vec<char> = Vec::new();
    text::push_str(&mut v, "deleted ");
    if memo.kind == MemoKind::Project {
        text::push_str(&mut v, "project");
    } else {
        text::push_str(&mut v, "memo");
    }
    v.push(' ');
    text::push_str(&mut v, memo.path.as_str());
    Ok((target, text::string_from_chars(v.as_slice())))
}

/// What `del` does next.
#[derive(Debug, PartialEq, Eq, Structural)]
pub enum DelDecision {
    /// Delete the memo.
    Delete,
    /// Ask the question (`prompt`) and read the answer.
    Ask,
    /// Refuse: there is no terminal to ask on and `--yes` was not given.
    Refuse,
    /// The answer did not confirm: delete nothing.
    Abort,
}

/// The decision of `del`: with `--yes` delete at once; without a terminal
/// refuse; on a terminal ask, and once answered delete only on a confirming
/// answer.
pub open spec fn del_decision(yes: bool, is_tty: bool, answer: Option<Seq<char>>) -> DelDecision {
    if yes {
        DelDecision::Delete
    } else if !is_tty {
        DelDecision::Refuse
    } else {
        match answer {
            None => DelDecision::Ask,
            Some(a) => if confirms(a) {
                DelDecision::Delete
            } else {
                DelDecision::Abort
            },
        }
    }
}

/// Decide the next step of `del` from the `--yes` flag, whether stdin is a
/// terminal, and the answer to the question once it was asked.
pub fn decide(yes: bool, is_tty: bool, answer: Option<&str>) -> (r: DelDecision)
    ensures
        r == del_decision(yes, is_tty, crate::memo::opt_str_view(answer)),
{
    if yes {
        DelDecision::Delete
    } else if !is_tty {
        DelDecision::Refuse
    } else {
        match answer {
            None => DelDecision::Ask,
            Some(a) => if confirmed(a) {
                DelDecision::Delete
            } else {
                DelDecision::Abort
            },
        }
    }
}

/// The error text of a refusal to delete without confirmation.
pub fn refusal() -> (r: String)
    ensures
        r@ == "refusing to delete without confirmation; pass -y/--yes to delete non-interactively"@,
{
    "refusing to delete without confirmation; pass -y/--yes to delete non-interactively".to_string()
}

/// The report when the answer did not confirm.
pub fn aborted() -> (r: String)
    ensures
        r@ == "aborted; nothing deleted"@,
{
    "aborted; nothing deleted".to_string()
}

} // verus!
