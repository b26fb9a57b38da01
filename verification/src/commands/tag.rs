//! `tag`: add tags to a memo's frontmatter.
use vstd::prelude::*;
use crate::memo::{self, Memo};
use crate::store;
use crate::text;

verus! {

/// `tagged '<title>' — tags: [a, b]`.
pub open spec fn tagged_notice(title: Seq<char>, tags: Seq<Seq<char>>) -> Seq<char> {
    "tagged '"@ + title + "' \u{2014} tags: ["@ + text::join(tags, ", "@) + seq![']']
}

/// Add `tags` to the resolved memo, whose file holds `content`, ignoring
/// duplicates: the content to write back, the resulting tag list, and the
/// report.
pub fn run(memo: &Memo, content: &str, tags: &[String]) -> (r: (String, Vec<String>, String))
    ensures
        r.1.deep_view() == store::merged_tags(memo.tags.deep_view(), tags.deep_view()),
        r.0@ == memo::write_tags_spec(content@, r.1.deep_view()),
        r.2@ == tagged_notice(memo.title@, r.1.deep_view()),
{
    let (updated, all) = store::add_tags(memo, content, tags);
    let mut v: Vec<char> = Vec::new();
    text::push_str(&mut v, "tagged '");
    text::push_str(&mut v, memo.title.as_str());
    text::push_str(&mut v, "' \u{2014} tags: [");
    let sep = text::chars_of(", ");
    text::push_join(&mut v, all.as_slice(), &sep);
    v.push(']');
    let notice = text::string_from_chars(v.as_slice());
    (updated, all, notice)
}

} // verus!
