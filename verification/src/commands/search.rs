//! `search`: full-text search across memo bodies, with the date and tag
//! filters of `overview`. A body line matches when, lowered, it contains the
//! lowered query.
use vstd::prelude::*;
use crate::commands::overview::{self, bad_date, parsed};
use crate::commands::util;
use crate::date::{self, Date};
use crate::error::StplError;
use crate::memo::{self, Memo};
use crate::order;
use crate::output::{self, Style, Tint};
use crate::store::StoreError;
use crate::text;
use crate::unicode;
use vstd::pervasive::VecAdditionalExecFns;

verus! {

/// One matching body line: its 1-based number within the body (after any
/// frontmatter) and its trimmed text.
#[derive(Debug)]
pub struct LineMatch {
    pub line: usize,
    pub text: String,
}

/// A memo with the body lines that matched the query.
#[derive(Debug)]
pub struct Hit {
    pub memo: Memo,
    pub matches: Vec<LineMatch>,
}

/// `needle` occurs in `hay`.
pub open spec fn contains_text(hay: Seq<char>, needle: Seq<char>) -> bool {
    exists|i: int| 0 <= i && i + needle.len() <= hay.len() && #[trigger] hay.subrange(i, i + needle.len()) == needle
}

/// Whether `needle` occurs in `hay`.
fn has_text(hay: &Vec<char>, needle: &Vec<char>) -> (r: bool)
    ensures
        r == contains_text(hay@, needle@),
{
    if needle.len() > hay.len() {
        return false;
    }
    let last = hay.len() - needle.len();
    let mut i: usize = 0;
    while i < last
        invariant
            last == hay.len() - needle.len(),
            i <= last,
            forall|j: int| 0 <= j < i ==> #[trigger] hay@.subrange(j, j + needle@.len()) != needle@,
        decreases last - i,
    {
        if text::eq_range(hay, i, i + needle.len(), needle) {
            assert(hay@.subrange(i as int, i + needle@.len()) == needle@);
            return true;
        }
        i = i + 1;
    }
    if text::eq_range(hay, last, hay.len(), needle) {
        assert(hay@.subrange(last as int, last + needle@.len()) == needle@);
        return true;
    }
    false
}

/// The matches among the lines `ls`: each line whose lowered text contains
/// `needle`, as its 1-based number and its trimmed text.
pub open spec fn line_hits(ls: Seq<Seq<char>>, needle: Seq<char>) -> Seq<(int, Seq<char>)>
    decreases ls.len(),
{
    if ls.len() == 0 {
        seq![]
    } else {
        let h = line_hits(ls.drop_last(), needle);
        if contains_text(unicode::lowercase_text(ls.last()), needle) {
            h.push((ls.len() as int, text::trim(ls.last())))
        } else {
            h
        }
    }
}

/// The line matches as numbers and texts.
pub open spec fn match_view(ms: Seq<LineMatch>) -> Seq<(int, Seq<char>)> {
    ms.map_values(|m: LineMatch| (m.line as int, m.text@))
}

/// The matches of `query` in the body of `content`.
pub open spec fn body_hits(content: Seq<char>, query: Seq<char>) -> Seq<(int, Seq<char>)> {
    line_hits(overview::str_lines(memo::strip_frontmatter_spec(content)), unicode::lowercase_text(query))
}

/// The body lines of `content` (frontmatter stripped) that contain `query`,
/// case aside, numbered from 1 and trimmed.
pub fn line_matches(content: &str, query: &str) -> (r: Vec<LineMatch>)
    ensures
        match_view(r@) == body_hits(content@, query@),
{
    let needle_text = unicode::str_to_lowercase(query);
    let needle = text::chars_of(needle_text.as_str());
    let body = memo::strip_frontmatter(content);
    let c = text::chars_of(body);
    let len = c.len();
    let r = text::split_lines(&c, 0, len);
    let ghost ls = overview::str_lines(c@);
    proof {
        assert(c@.subrange(0, len as int) =~= c@);
        assert(ls.len() == r@.len());
        assert forall|k: int| 0 <= k < r@.len() implies ls[k] == overview::line_text(
            c@.subrange(r@[k].0 as int, r@[k].1 as int),
        ) by {
            assert(text::range_texts(c@, r@)[k] == c@.subrange(r@[k].0 as int, r@[k].1 as int));
        }
    }
    let mut out: Vec<LineMatch> = Vec::new();
    let mut k: usize = 0;
    while k < r.len()
        invariant
            k <= r.len() == ls.len(),
            text::within(r@, len as int),
            len == c.len(),
            needle@ == unicode::lowercase_text(query@),
            forall|j: int| 0 <= j < r@.len() ==> #[trigger] ls[j] == overview::line_text(
                c@.subrange(r@[j].0 as int, r@[j].1 as int),
            ),
            match_view(out@) == line_hits(ls.take(k as int), needle@),
        decreases r.len() - k,
    {
        let (lo, hi) = r[k];
        let y = overview::line_text_end(&c, lo, hi);
        let mut lv: Vec<char> = Vec::new();
        text::push_range(&mut lv, &c, lo, y);
        let line = text::string_from_chars(lv.as_slice());
        let lowered = unicode::str_to_lowercase(line.as_str());
        let lc = text::chars_of(lowered.as_str());
        proof {
            assert(ls.take(k + 1).drop_last() =~= ls.take(k as int));
            assert(ls.take(k + 1).last() == ls[k as int]);
        }
        let ghost before = out@;
        if has_text(&lc, &needle) {
            let (x, z) = text::trim_range(&c, lo, y);
            let mut tv: Vec<char> = Vec::new();
            text::push_range(&mut tv, &c, x, z);
            out.push(LineMatch { line: k + 1, text: text::string_from_chars(tv.as_slice()) });
            proof {
                assert(match_view(out@) =~= match_view(before).push(((k + 1) as int, text::trim(ls[k as int]))));
            }
        }
        k = k + 1;
    }
    proof {
        assert(ls.take(r.len() as int) =~= ls);
        assert(body@ == memo::strip_frontmatter_spec(content@));
    }
    out
}

/// A memo and the numbers and texts of its matching lines.
pub open spec fn hit_view(h: Hit) -> (Memo, Seq<(int, Seq<char>)>) {
    (h.memo, match_view(h.matches@))
}

/// The hits among the memos `ms`, whose contents are `cs` (`None` for a
/// memo whose file could not be read, which is skipped): each memo with at
/// least one matching line.
pub open spec fn hits_of(ms: Seq<Memo>, cs: Seq<Option<Seq<char>>>, query: Seq<char>) -> Seq<
    (Memo, Seq<(int, Seq<char>)>),
>
    decreases ms.len(),
{
    if ms.len() == 0 {
        seq![]
    } else {
        let h = hits_of(ms.drop_last(), cs, query);
        match cs[ms.len() - 1] {
            Some(c) => if body_hits(c, query).len() > 0 {
                h.push((ms.last(), body_hits(c, query)))
            } else {
                h
            },
            None => h,
        }
    }
}

/// The views of optional texts.
pub open spec fn contents_view(cs: Seq<Option<String>>) -> Seq<Option<Seq<char>>> {
    cs.map_values(|c: Option<String>| match c {
        Some(s) => Some(s@),
        None => None,
    })
}

/// The memos with at least one body line matching `query`, in order, each
/// with its matching lines. `contents[i]` is the content of `memos[i]`, or
/// `None` when it could not be read (such memos are skipped).
pub fn hits(memos: Vec<Memo>, contents: &[Option<String>], query: &str) -> (r: Vec<Hit>)
    requires
        contents.len() == memos.len(),
    ensures
        r@.map_values(|h: Hit| hit_view(h)) == hits_of(memos@, contents_view(contents@), query@),
{
    let ghost all = memos@;
    let ghost cs = contents_view(contents@);
    let mut out: Vec<Hit> = Vec::new();
    let mut idx: usize = 0;
    for m in it: memos
        invariant
            all == it.seq(),
            idx == it.index(),
            cs == contents_view(contents@),
            contents.len() == all.len(),
            out@.map_values(|h: Hit| hit_view(h)) == hits_of(all.take(it.index() as int), cs, query@),
    {
        let ghost k = it.index();
        let ghost before = out@;
        proof {
            assert(all.take(k + 1).drop_last() =~= all.take(k as int));
            assert(all.take(k + 1).last() == m);
        }
        match &contents[idx] {
            Some(c) => {
                let ms = line_matches(c.as_str(), query);
                if ms.len() > 0 {
                    out.push(Hit { memo: m, matches: ms });
                    proof {
                        assert(out@.map_values(|h: Hit| hit_view(h)) =~= before.map_values(
                            |h: Hit| hit_view(h),
                        ).push((all[k as int], body_hits(c@, query@))));
                    }
                }
            },
            None => {},
        }
        idx = idx + 1;
    }
    proof {
        assert(all.take(all.len() as int) =~= all);
    }
    out
}

/// The search order: by date, then title (as `str` orders them).
pub open spec fn dated_lt(a: Memo, b: Memo) -> bool {
    overview::earlier(a.date, b.date) || (a.date == b.date && order::text_lt(a.title@, b.title@))
}

/// Position `i` of `ms` comes before position `j` in the search order,
/// ties kept in their order (a stable sort).
pub open spec fn dated_before(ms: Seq<Memo>, i: int, j: int) -> bool {
    dated_lt(ms[i], ms[j]) || (ms[i].date == ms[j].date && ms[i].title@ == ms[j].title@ && i < j)
}

/// The search order as a relation on positions.
pub open spec fn by_date(ms: Seq<Memo>) -> spec_fn(int, int) -> bool {
    |i: int, j: int| dated_before(ms, i, j)
}

proof fn lemma_dated_order(a: Memo, b: Memo, c: Memo)
    ensures
        !dated_lt(a, a),
        dated_lt(a, b) && dated_lt(b, c) ==> dated_lt(a, c),
        dated_lt(a, b) && b.date == c.date && b.title@ == c.title@ ==> dated_lt(a, c),
        a.date == b.date && a.title@ == b.title@ && dated_lt(b, c) ==> dated_lt(a, c),
        a.date == b.date && a.title@ == b.title@ ==> !dated_lt(a, b) && !dated_lt(b, a),
        dated_lt(a, b) || dated_lt(b, a) || (a.date == b.date && a.title@ == b.title@),
{
    order::lemma_text_lt_irreflexive(a.title@);
    order::lemma_text_lt_irreflexive(b.title@);
    if order::text_lt(a.title@, b.title@) && order::text_lt(b.title@, c.title@) {
        order::lemma_text_lt_transitive(a.title@, b.title@, c.title@);
    }
    if order::text_lt(a.title@, b.title@) && order::text_lt(b.title@, a.title@) {
        order::lemma_text_lt_transitive(a.title@, b.title@, a.title@);
    }
    order::lemma_text_lt_total(a.title@, b.title@);
    a.date.lemma_same_date(b.date);
    b.date.lemma_same_date(c.date);
    a.date.lemma_same_date(c.date);
}

proof fn lemma_by_date_total(ms: Seq<Memo>)
    ensures
        order::strict_total(by_date(ms), ms.len() as int),
{
    let f = by_date(ms);
    assert forall|i: int| 0 <= i < ms.len() implies !#[trigger] f(i, i) by {
        lemma_dated_order(ms[i], ms[i], ms[i]);
    }
    assert forall|i: int, j: int, k: int|
        0 <= i < ms.len() && 0 <= j < ms.len() && 0 <= k < ms.len() && #[trigger] f(i, j)
            && #[trigger] f(j, k) implies f(i, k) by {
        lemma_dated_order(ms[i], ms[j], ms[k]);
        lemma_dated_order(ms[i], ms[k], ms[j]);
        lemma_dated_order(ms[j], ms[i], ms[k]);
    }
    assert forall|i: int, j: int| 0 <= i < ms.len() && 0 <= j < ms.len() && i != j implies #[trigger] f(
        i,
        j,
    ) || f(j, i) by {
        lemma_dated_order(ms[i], ms[j], ms[j]);
    }
}

/// Whether position `a` comes before position `b` in the search order.
fn dated_first(ms: &Vec<Memo>, titles: &Vec<Vec<char>>, a: usize, b: usize) -> (r: bool)
    requires
        a < ms.len(),
        b < ms.len(),
        titles.len() == ms.len(),
        forall|i: int| 0 <= i < ms.len() ==> (#[trigger] titles@[i])@ == ms@[i].title@,
    ensures
        r == dated_before(ms@, a as int, b as int),
{
    let x = &ms[a];
    let y = &ms[b];
    proof {
        x.date.lemma_same_date(y.date);
    }
    if x.date != y.date {
        return x.date.on_or_before(&y.date) && !y.date.on_or_before(&x.date);
    }
    let ta = &titles[a];
    let tb = &titles[b];
    if order::text_less(ta, tb) {
        return true;
    }
    if order::text_less(tb, ta) {
        return false;
    }
    proof {
        order::lemma_text_lt_total(x.title@, y.title@);
    }
    a < b
}

/// The memos in the order of the positions `p`, which hold each position
/// once.
fn arrange(memos: Vec<Memo>, p: &Vec<usize>) -> (r: Vec<Memo>)
    requires
        order::covers(p@, memos.len() as int),
        forall|a: int, b: int| 0 <= a < b < p.len() ==> #[trigger] p@[a] != #[trigger] p@[b],
    ensures
        r@ == overview::at_positions(memos@, p@),
{
    let n = memos.len();
    let ghost ms = memos@;
    let mut slots = overview::into_slots(memos);
    let mut out: Vec<Memo> = Vec::new();
    let mut t: usize = 0;
    while t < n
        invariant
            t <= n == p.len() == slots.len() == ms.len(),
            order::covers(p@, n as int),
            forall|a: int, b: int| 0 <= a < b < p.len() ==> #[trigger] p@[a] != #[trigger] p@[b],
            forall|s: int| t <= s < n ==> #[trigger] slots@[p@[s] as int] == Some(ms[p@[s] as int]),
            out@ == overview::at_positions(ms, p@.take(t as int)),
        decreases n - t,
    {
        let pos = p[t];
        let mut taken: Option<Memo> = None;
        slots.set_and_swap(pos, &mut taken);
        let m = match taken {
            Some(m) => m,
            None => {
                assert(false);
                return out;
            },
        };
        proof {
            assert forall|s: int| t + 1 <= s < n implies #[trigger] slots@[p@[s] as int] == Some(
                ms[p@[s] as int],
            ) by {
                assert(p@[t as int] != p@[s]);
            }
            assert(p@.take(t + 1) =~= p@.take(t as int).push(pos));
        }
        out.push(m);
        proof {
            assert(out@ =~= overview::at_positions(ms, p@.take(t + 1)));
        }
        t = t + 1;
    }
    proof {
        assert(p@.take(n as int) =~= p@);
    }
    out
}

/// The memos sorted by date, then title, ties kept in their order.
pub fn sort_by_date(memos: Vec<Memo>) -> (r: Vec<Memo>)
    ensures
        exists|p: Seq<usize>|
            order::covers(p, memos.len() as int) && order::ordered(p, by_date(memos@)) && r@
                == overview::at_positions(memos@, p),
{
    let n = memos.len();
    let ghost ms = memos@;
    let mut titles: Vec<Vec<char>> = Vec::new();
    let mut i: usize = 0;
    while i < n
        invariant
            i <= n == memos.len(),
            titles.len() == i,
            forall|k: int| 0 <= k < i ==> (#[trigger] titles@[k])@ == memos@[k].title@,
        decreases n - i,
    {
        titles.push(text::chars_of(memos[i].title.as_str()));
        i = i + 1;
    }
    proof {
        lemma_by_date_total(ms);
    }
    let decide = |a: usize, b: usize| -> (r: bool)
        requires
            a < n,
            b < n,
        ensures
            r == dated_before(memos@, a as int, b as int),
        { dated_first(&memos, &titles, a, b) };
    let p = order::sort_positions(n, &decide, Ghost(by_date(ms)));
    proof {
        assert forall|a: int, b: int| 0 <= a < b < p.len() implies #[trigger] p@[a] != #[trigger] p@[b] by {
            assert(by_date(ms)(p@[a] as int, p@[b] as int));
        }
    }
    arrange(memos, &p)
}

/// The memos to search: parse the date bounds (`InvalidDate` for text that
/// is no `YYYY-MM-DD` date), refuse a range whose start is after its end,
/// keep the memos within the range that carry one of `tags` (when any are
/// given), and order them by date, then title.
pub fn run(memos: Vec<Memo>, after: Option<&str>, before: Option<&str>, tags: &[String]) -> (r: Result<
    Vec<Memo>,
    StoreError,
>)
    ensures
        bad_date(after) ==> (r matches Err(e) && (e matches StoreError::Stpl(StplError::InvalidDate(q))
            && q@ == after.unwrap()@)),
        !bad_date(after) && bad_date(before) ==> (r matches Err(e) && (e matches StoreError::Stpl(
            StplError::InvalidDate(q),
        ) && q@ == before.unwrap()@)),
        !bad_date(after) && !bad_date(before) ==> exists|a: Option<Date>, b: Option<Date>|
            {
                &&& parsed(after, a)
                &&& parsed(before, b)
                &&& if a matches Some(x) && b matches Some(y) && !x.le(y) {
                    r matches Err(e) && (e matches StoreError::Message(m) && m@ == util::range_message(
                        a.unwrap(),
                        b.unwrap(),
                    ))
                } else {
                    r matches Ok(rs) && {
                        let kept = memos@.filter(|m: Memo| util::selected(m, a, b, tags.deep_view()));
                        exists|p: Seq<usize>|
                            order::covers(p, kept.len() as int) && order::ordered(p, by_date(kept)) && rs@
                                == overview::at_positions(kept, p)
                    }
                }
            },
{
    let (a, b) = match overview::bounds(after, before) {
        Ok(ab) => ab,
        Err(e) => return Err(e),
    };
    let kept = util::select(memos, a, b, tags);
    Ok(sort_by_date(kept))
}

/// The markdown lines of the matches of a hit.
pub open spec fn md_match_lines(ms: Seq<LineMatch>) -> Seq<char>
    decreases ms.len(),
{
    if ms.len() == 0 {
        seq![]
    } else {
        md_match_lines(ms.drop_last()) + "  - `"@ + date::decimal(ms.last().line as nat) + "`: "@
            + ms.last().text@ + seq!['\n']
    }
}

/// The markdown of a hit: a link to the memo, then its matching lines.
pub open spec fn md_hit(h: Hit) -> Seq<char> {
    "- ["@ + h.memo.title@ + "]("@ + output::file_scheme() + output::encode_spaces(h.memo.path@) + ")\n"@
        + md_match_lines(h.matches@)
}

/// The markdown of the hits.
pub open spec fn md_hits(hs: Seq<Hit>) -> Seq<char>
    decreases hs.len(),
{
    if hs.len() == 0 {
        seq![]
    } else {
        md_hits(hs.drop_last()) + md_hit(hs.last())
    }
}

/// The markdown search report.
pub open spec fn search_markdown(hs: Seq<Hit>, query: Seq<char>) -> Seq<char> {
    if hs.len() == 0 {
        "# Search: "@ + query + "\n\n_No matches._\n"@
    } else {
        "# Search: "@ + query + "\n\n"@ + md_hits(hs)
    }
}

/// Markdown report: a `# Search:` title, then for each hit a link to the
/// memo (`file://`, spaces encoded) with its matching lines below it.
pub fn render_markdown(hits: &[Hit], query: &str) -> (r: String)
    ensures
        r@ == search_markdown(hits@, query@),
{
    let mut out: Vec<char> = Vec::new();
    text::push_str(&mut out, "# Search: ");
    text::push_str(&mut out, query);
    if hits.len() == 0 {
        text::push_str(&mut out, "\n\n_No matches._\n");
        return text::string_from_chars(out.as_slice());
    }
    text::push_str(&mut out, "\n\n");
    let ghost hv = hits@;
    let ghost head = out@;
    let mut i: usize = 0;
    while i < hits.len()
        invariant
            i <= hits.len(),
            hv == hits@,
            out@ == head + md_hits(hv.take(i as int)),
        decreases hits.len() - i,
    {
        let h = &hits[i];
        let ghost start = out@;
        text::push_str(&mut out, "- [");
        text::push_str(&mut out, h.memo.title.as_str());
        text::push_str(&mut out, "](file://");
        output::push_encoded(&mut out, h.memo.path.as_str());
        text::push_str(&mut out, ")\n");
        let ghost mid = out@;
        let mut k: usize = 0;
        while k < h.matches.len()
            invariant
                k <= h.matches.len(),
                i < hits.len(),
                *h == hv[i as int],
                out@ == mid + md_match_lines(h.matches@.take(k as int)),
            decreases h.matches.len() - k,
        {
            let m = &h.matches[k];
            proof {
                assert(h.matches@.take(k + 1).drop_last() =~= h.matches@.take(k as int));
                assert(h.matches@.take(k + 1).last() == *m);
            }
            text::push_str(&mut out, "  - `");
            date::push_decimal(&mut out, m.line as u64);
            text::push_str(&mut out, "`: ");
            text::push_str(&mut out, m.text.as_str());
            out.push('\n');
            proof {
                assert(out@ =~= mid + md_match_lines(h.matches@.take(k + 1)));
            }
            k = k + 1;
        }
        proof {
            reveal_strlit("](file://");
            reveal_strlit("](");
            assert(h.matches@.take(k as int) =~= h.matches@);
            assert(hv.take(i + 1).drop_last() =~= hv.take(i as int));
            assert(hv.take(i + 1).last() == hv[i as int]);
            assert(out@ =~= start + md_hit(*h));
            assert(out@ =~= head + md_hits(hv.take(i + 1)));
        }
        i = i + 1;
    }
    proof {
        assert(hv.take(hits.len() as int) =~= hv);
    }
    text::string_from_chars(out.as_slice())
}

/// `t` dimmed (bright black) when color is on.
pub open spec fn dim_text(style: Style, t: Seq<char>) -> Seq<char> {
    if style.color {
        output::painted(Tint::BrightBlack, t)
    } else {
        t
    }
}

/// `text` dimmed (bright black) when color is enabled, else plain.
pub fn dim(style: &Style, t: &str) -> (r: String)
    ensures
        r@ == dim_text(*style, t@),
{
    if !style.color {
        return t.to_string();
    }
    output::paint(Tint::BrightBlack, t)
}

/// A match line of the text report: the line number (dimmed) and the text.
pub open spec fn match_line(style: Style, m: LineMatch) -> Seq<char> {
    "    "@ + dim_text(style, date::decimal(m.line as nat) + seq![':']) + seq![' '] + m.text@
}

/// The lines of one hit: a blank line unless it is the first, the memo
/// line, then its matches.
pub open spec fn hit_lines(style: Style, h: Hit, first: bool) -> Seq<Seq<char>> {
    (if first {
        seq![]
    } else {
        seq![seq![]]
    }) + seq![output::memo_line_text(style, h.memo.title@, h.memo.path@)] + Seq::new(
        h.matches.len() as nat,
        |k: int| match_line(style, h.matches@[k]),
    )
}

/// The lines of the hits.
pub open spec fn search_lines(style: Style, hs: Seq<Hit>) -> Seq<Seq<char>>
    decreases hs.len(),
{
    if hs.len() == 0 {
        seq![]
    } else {
        search_lines(style, hs.drop_last()) + hit_lines(style, hs.last(), hs.len() == 1)
    }
}

/// `no memos match '<query>'`.
pub open spec fn no_match(query: Seq<char>) -> Seq<char> {
    "no memos match '"@ + query + seq!['\'']
}

/// The human-facing report, line by line: the canonical memo line of each
/// hit, then one indented `line: text` per match (the number dimmed when
/// color is enabled), a blank line between hits. No hits is a message.
pub fn render_text(style: &Style, hits: &[Hit], query: &str) -> (r: Vec<String>)
    ensures
        hits.len() == 0 ==> r.deep_view() == seq![output::success_message(*style, no_match(query@))],
        hits.len() > 0 ==> r.deep_view() == search_lines(*style, hits@),
{
    let mut out: Vec<String> = Vec::new();
    if hits.len() == 0 {
        let mut v: Vec<char> = Vec::new();
        text::push_str(&mut v, "no memos match '");
        text::push_str(&mut v, query);
        v.push('\'');
        assert(v@ =~= no_match(query@));
        let msg = text::string_from_chars(v.as_slice());
        out.push(output::success(style, msg.as_str()));
        assert(out.deep_view() =~= seq![output::success_message(*style, no_match(query@))]);
        return out;
    }
    let ghost hv = hits@;
    let mut i: usize = 0;
    while i < hits.len()
        invariant
            i <= hits.len(),
            hv == hits@,
            out.deep_view() == search_lines(*style, hv.take(i as int)),
        decreases hits.len() - i,
    {
        let h = &hits[i];
        let ghost before = out.deep_view();
        if i > 0 {
            out.push(String::new());
        }
        out.push(style.memo_line(&h.memo));
        let mut k: usize = 0;
        while k < h.matches.len()
            invariant
                k <= h.matches.len(),
                i < hits.len(),
                *h == hv[i as int],
                out.deep_view() == before + (if i == 0 {
                    seq![]
                } else {
                    seq![seq![]]
                }) + seq![output::memo_line_text(*style, h.memo.title@, h.memo.path@)] + Seq::new(
                    k as nat,
                    |j: int| match_line(*style, h.matches@[j]),
                ),
            decreases h.matches.len() - k,
        {
            let m = &h.matches[k];
            let mut num: Vec<char> = Vec::new();
            date::push_decimal(&mut num, m.line as u64);
            num.push(':');
            let numtext = text::string_from_chars(num.as_slice());
            let d = dim(style, numtext.as_str());
            let mut v: Vec<char> = Vec::new();
            text::push_str(&mut v, "    ");
            text::push_str(&mut v, d.as_str());
            v.push(' ');
            text::push_str(&mut v, m.text.as_str());
            let ghost prev = out.deep_view();
            out.push(text::string_from_chars(v.as_slice()));
            proof {
                assert(v@ =~= match_line(*style, *m));
                assert(out.deep_view() =~= prev.push(match_line(*style, *m)));
                assert(Seq::new((k + 1) as nat, |j: int| match_line(*style, h.matches@[j])) =~= Seq::new(
                    k as nat,
                    |j: int| match_line(*style, h.matches@[j]),
                ).push(match_line(*style, h.matches@[k as int])));
            }
            k = k + 1;
        }
        proof {
            assert(hv.take(i + 1).drop_last() =~= hv.take(i as int));
            assert(hv.take(i + 1).last() == hv[i as int]);
            assert(Seq::new(h.matches.len() as nat, |j: int| match_line(*style, h.matches@[j])) =~= Seq::new(
                k as nat,
                |j: int| match_line(*style, h.matches@[j]),
            ));
            assert(out.deep_view() =~= search_lines(*style, hv.take(i + 1)));
        }
        i = i + 1;
    }
    proof {
        assert(hv.take(hits.len() as int) =~= hv);
    }
    out
}

} // verus!
