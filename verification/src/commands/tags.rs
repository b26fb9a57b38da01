//! `tags`: every tag across the memos with the number of memos carrying it,
//! sorted by count descending, then tag ascending.
use vstd::prelude::*;
use crate::commands::search::dim_text;
use crate::commands::search;
use crate::date;
use crate::memo::Memo;
use crate::output::{self, Style, Tint};
use crate::store;
use crate::text;

verus! {

/// A single tag and how many memos carry it.
#[derive(Debug)]
pub struct TagCount {
    pub tag: String,
    pub count: usize,
}

/// The tag counts as texts and numbers.
pub open spec fn tc_view(r: Seq<TagCount>) -> Seq<(Seq<char>, nat)> {
    r.map_values(|c: TagCount| (c.tag@, c.count as nat))
}

/// Count the tags across the memos: every tag once, with its count, sorted
/// by count descending, then tag ascending.
pub fn run(memos: &[Memo]) -> (r: Vec<TagCount>)
    requires
        store::all_tags(memos@).len() <= usize::MAX,
    ensures
        store::is_tag_count_listing(tc_view(r@), store::all_tags(memos@)),
{
    let counts = store::tag_counts(memos);
    let ghost cv = store::count_view(counts@);
    let mut out: Vec<TagCount> = Vec::new();
    let mut i: usize = 0;
    while i < counts.len()
        invariant
            i <= counts.len(),
            cv == store::count_view(counts@),
            tc_view(out@) == cv.take(i as int),
        decreases counts.len() - i,
    {
        let c = &counts[i];
        let ghost before = out@;
        out.push(TagCount { tag: c.0.clone(), count: c.1 });
        proof {
            assert(out@ == before.push(out@.last()));
            assert(cv[i as int] == (counts@[i as int].0@, counts@[i as int].1 as nat));
            assert(tc_view(out@) =~= tc_view(before).push(cv[i as int]));
            assert(tc_view(out@) =~= cv.take(i + 1));
        }
        i = i + 1;
    }
    proof {
        assert(cv.take(counts.len() as int) =~= cv);
    }
    out
}

/// `#tag`, in magenta when color is on.
pub open spec fn tag_colored_text(style: Style, tag: Seq<char>) -> Seq<char> {
    if style.color {
        output::painted(Tint::Magenta, seq!['#'] + tag)
    } else {
        seq!['#'] + tag
    }
}

/// `#tag` in magenta when color is enabled, else plain.
pub fn tag_colored(style: &Style, tag: &str) -> (r: String)
    ensures
        r@ == tag_colored_text(*style, tag@),
{
    let mut v: Vec<char> = vec!['#'];
    text::push_str(&mut v, tag);
    let t = text::string_from_chars(v.as_slice());
    if !style.color {
        return t;
    }
    output::paint(Tint::Magenta, t.as_str())
}

/// A line of the text listing: `  #tag (count)`, the count dimmed.
pub open spec fn count_line(style: Style, c: TagCount) -> Seq<char> {
    seq![' ', ' '] + tag_colored_text(style, c.tag@) + seq![' '] + dim_text(
        style,
        seq!['('] + date::decimal(c.count as nat) + seq![')'],
    )
}

/// `no tags found`.
pub open spec fn no_tags() -> Seq<char> {
    "no tags found"@
}

/// The text listing, line by line; an empty listing is a message.
pub fn render_text(style: &Style, counts: &[TagCount]) -> (r: Vec<String>)
    ensures
        counts.len() == 0 ==> r.deep_view() == seq![output::success_message(*style, no_tags())],
        counts.len() > 0 ==> r.deep_view() == Seq::new(
            counts.len() as nat,
            |i: int| count_line(*style, counts@[i]),
        ),
{
    let mut out: Vec<String> = Vec::new();
    if counts.len() == 0 {
        out.push(output::success(style, "no tags found"));
        assert(out.deep_view() =~= seq![output::success_message(*style, no_tags())]);
        return out;
    }
    let mut i: usize = 0;
    while i < counts.len()
        invariant
            i <= counts.len(),
            out.len() == i,
            forall|k: int| 0 <= k < i ==> #[trigger] out@[k]@ == count_line(*style, counts@[k]),
        decreases counts.len() - i,
    {
        let c = &counts[i];
        let mut num: Vec<char> = vec!['('];
        date::push_decimal(&mut num, c.count as u64);
        num.push(')');
        let numtext = text::string_from_chars(num.as_slice());
        let d = search::dim(style, numtext.as_str());
        let t = tag_colored(style, c.tag.as_str());
        let mut v: Vec<char> = vec![' ', ' '];
        text::push_str(&mut v, t.as_str());
        v.push(' ');
        text::push_str(&mut v, d.as_str());
        proof {
            assert(num@ =~= seq!['('] + date::decimal(c.count as nat) + seq![')']);
            assert(v@ =~= count_line(*style, *c));
        }
        out.push(text::string_from_chars(v.as_slice()));
        i = i + 1;
    }
    proof {
        let want = Seq::new(counts.len() as nat, |i: int| count_line(*style, counts@[i]));
        assert forall|k: int| 0 <= k < out.len() implies out.deep_view()[k] == want[k] by {
            assert(out@[k]@ == count_line(*style, counts@[k]));
        }
        assert(out.deep_view() =~= want);
    }
    out
}

/// The markdown items of the counts: `- #tag (count)`.
pub open spec fn md_counts(cs: Seq<TagCount>) -> Seq<char>
    decreases cs.len(),
{
    if cs.len() == 0 {
        seq![]
    } else {
        md_counts(cs.drop_last()) + "- #"@ + cs.last().tag@ + " ("@ + date::decimal(cs.last().count as nat)
            + ")\n"@
    }
}

/// The markdown listing.
pub open spec fn tags_markdown(cs: Seq<TagCount>) -> Seq<char> {
    if cs.len() == 0 {
        "# Tags\n\n_No tags found._\n"@
    } else {
        "# Tags\n\n"@ + md_counts(cs)
    }
}

/// Markdown listing: a `# Tags` title and a bullet per tag with its count.
pub fn render_markdown(counts: &[TagCount]) -> (r: String)
    ensures
        r@ == tags_markdown(counts@),
{
    if counts.len() == 0 {
        return "# Tags\n\n_No tags found._\n".to_string();
    }
    let mut out: Vec<char> = Vec::new();
    text::push_str(&mut out, "# Tags\n\n");
    let ghost cv = counts@;
    let mut i: usize = 0;
    while i < counts.len()
        invariant
            i <= counts.len(),
            cv == counts@,
            out@ == "# Tags\n\n"@ + md_counts(cv.take(i as int)),
        decreases counts.len() - i,
    {
        let c = &counts[i];
        proof {
            assert(cv.take(i + 1).drop_last() =~= cv.take(i as int));
            assert(cv.take(i + 1).last() == *c);
        }
        text::push_str(&mut out, "- #");
        text::push_str(&mut out, c.tag.as_str());
        text::push_str(&mut out, " (");
        date::push_decimal(&mut out, c.count as u64);
        text::push_str(&mut out, ")\n");
        proof {
            assert(out@ =~= "# Tags\n\n"@ + md_counts(cv.take(i + 1)));
        }
        i = i + 1;
    }
    proof {
        assert(cv.take(counts.len() as int) =~= cv);
    }
    text::string_from_chars(out.as_slice())
}

} // verus!
