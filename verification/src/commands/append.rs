//! `append`: add a line to an existing memo without opening an editor.
use vstd::prelude::*;
use crate::memo::Memo;
use crate::store;
use crate::text;

verus! {

/// `appended to '<title>'`.
pub open spec fn appended_notice(title: Seq<char>) -> Seq<char> {
    "appended to '"@ + title + seq!['\'']
}

/// Append `message` to the body of the resolved memo, whose file holds
/// `content`: the content to write back, and the report of what was done.
pub fn run(memo: &Memo, content: &str, message: &str) -> (r: (String, String))
    ensures
        r.0@ == store::appended(content@, message@),
        r.1@ == appended_notice(memo.title@),
{
    let updated = store::append(content, message);
    let mut v: Vec<char> = Vec::new();
    text::push_str(&mut v, "appended to '");
    text::push_str(&mut v, memo.title.as_str());
    v.push('\'');
    (updated, text::string_from_chars(v.as_slice()))
}

} // verus!
