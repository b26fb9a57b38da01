//! `untag`: remove tags from a memo's frontmatter.
use vstd::prelude::*;
use crate::memo::{self, Memo};
use crate::store;
use crate::text;

verus! {

/// `untagged '<title>' — tags: [a, b]`.
pub open spec fn untagged_notice(title: Seq<char>, tags: Seq<Seq<char>>) -> Seq<char> {
    "untagged '"@ + title + "' \u{2014} tags: ["@ + text::join(tags, ", "@) + seq![']']
}

/// Remove `tags` (case-insensitive; missing ones ignored) from the resolved
/// memo, whose file holds `content`: the content to write back, the
/// remaining tags, and the report.
pub fn run(memo: &Memo, content: &str, tags: &[String]) -> (r: (String, Vec<String>, String))
    ensures
        r.1.deep_view() == store::tags_kept(memo.tags.deep_view(), store::drop_keys(tags.deep_view())),
        r.0@ == memo::write_tags_spec(content@, r.1.deep_view()),
        r.2@ == untagged_notice(memo.title@, r.1.deep_view()),
{
    let (updated, remaining) = store::remove_tags(memo, content, tags);
    let mut v: Vec<char> = Vec::new();
    text::push_str(&mut v, "untagged '");
    text::push_str(&mut v, memo.title.as_str());
    text::push_str(&mut v, "' \u{2014} tags: [");
    let sep = text::chars_of(", ");
    text::push_join(&mut v, remaining.as_slice(), &sep);
    v.push(']');
    let notice = text::string_from_chars(v.as_slice());
    (updated, remaining, notice)
}

} // verus!
