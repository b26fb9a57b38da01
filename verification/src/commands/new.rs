//! `new`: create a memo dated today.
use vstd::prelude::*;
use crate::date::Date;
use crate::error::StplError;
use crate::memo;
use crate::store::{self, CreatePlan};
use crate::text;

verus! {

/// `created <path>`.
pub open spec fn created_notice(path: Seq<char>) -> Seq<char> {
    "created "@ + path
}

/// Plan a new memo titled `title` for `date` under `memo_dir`: slugify the
/// title (`InvalidTitle` when it has no slug), and lay out the path, the
/// folder to create and the template. With `content` the report of what was
/// created comes along; without it the memo is to be opened in the editor.
pub fn run(memo_dir: &str, date: Date, title: &str, content: Option<&str>) -> (r: Result<
    (CreatePlan, Option<String>),
    StplError,
>)
    ensures
        memo::slug_of(title@).len() == 0 ==> (r matches Err(e) && (e matches StplError::InvalidTitle(t)
            && t@ == title@)),
        memo::slug_of(title@).len() > 0 ==> (r matches Ok(p) && {
            &&& p.0.path@ == memo::memo_path_of(memo_dir@, date, memo::slug_of(title@))
            &&& p.0.dir@ == memo::dir_of(memo_dir@, date)
            &&& p.0.body@ == store::template(title@, date, memo::opt_str_view(content))
            &&& (content is None ==> p.1 is None)
            &&& (content is Some ==> (p.1 matches Some(m) && m@ == created_notice(p.0.path@)))
        }),
{
    let slug = memo::slugify(title)?;
    let plan = store::create(memo_dir, date, slug.as_str(), title, content);
    let notice = match content {
        Some(_) => {
            let mut v: Vec<char> = Vec::new();
            text::push_str(&mut v, "created ");
            text::push_str(&mut v, plan.path.as_str());
            Some(text::string_from_chars(v.as_slice()))
        },
        None => None,
    };
    Ok((plan, notice))
}

} // verus!
