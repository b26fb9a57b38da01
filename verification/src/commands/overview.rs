//! `overview`: memos grouped by `<year>/<week>` folder, filtered by date and
//! tags, and rendered as text, markdown, or verbose markdown with a preview
//! of each memo.
use vstd::prelude::*;
use crate::date::{self, Date};
use crate::output::{self, Style, Tint};
use crate::memo::{self, LineKind, Memo};
use crate::order;
use crate::commands::util;
use crate::error::StplError;
use crate::store::StoreError;
use crate::text;
use vstd::pervasive::VecAdditionalExecFns;

verus! {

/// A single `<year>/<week>` group.
#[derive(Debug)]
pub struct Group {
    pub year: i32,
    pub week: u32,
    pub memos: Vec<Memo>,
}

/// The content after a leading frontmatter block (`---` … `---`), with
/// nothing trimmed; the content itself when it has no frontmatter or the
/// closing fence is missing.
pub open spec fn body_of(c: Seq<char>) -> Seq<char> {
    if !text::starts_with(c, memo::fm_open()) {
        c
    } else {
        let ls = text::lines_incl(c.skip(4));
        let f = text::first_from(ls, memo::line_pred(LineKind::Fence), 0);
        if f < ls.len() {
            ls.skip(f + 1).flatten()
        } else {
            c
        }
    }
}

/// Drop a leading YAML frontmatter block (`---` … `---`) from `content`,
/// returning the body. Returns `content` unchanged when there is no
/// frontmatter or its closing fence is missing.
pub fn strip_frontmatter(content: &str) -> (res: &str)
    ensures
        res@ == body_of(content@),
{
    let c = text::chars_of(content);
    let (a, b, closed) = memo::after_frontmatter(&c);
    if !closed {
        return content;
    }
    content.substring_char(a, b)
}

/// A line of `str::lines`: the line without its `\n`, and without a `\r`
/// that came before that `\n`.
pub open spec fn line_text(l: Seq<char>) -> Seq<char> {
    if l.len() > 0 && l.last() == '\n' {
        let t = l.drop_last();
        if t.len() > 0 && t.last() == '\r' {
            t.drop_last()
        } else {
            t
        }
    } else {
        l
    }
}

/// `str::lines`.
pub open spec fn str_lines(s: Seq<char>) -> Seq<Seq<char>> {
    text::lines_incl(s).map_values(|l: Seq<char>| line_text(l))
}

/// The line is empty once trimmed.
pub open spec fn blank(l: Seq<char>) -> bool {
    forall|i: int| 0 <= i < l.len() ==> text::is_white(#[trigger] l[i])
}

/// The line holds something.
pub open spec fn filled() -> spec_fn(Seq<char>) -> bool {
    |l: Seq<char>| !blank(l)
}

/// The first `n` lines of the body, leading blank lines skipped, joined by
/// `\n`.
pub open spec fn preview(c: Seq<char>, n: nat) -> Seq<char> {
    let ls = str_lines(body_of(c));
    let rest = ls.skip(text::first_from(ls, filled(), 0));
    text::join(
        rest.take(
            if n < rest.len() {
                n as int
            } else {
                rest.len() as int
            },
        ),
        seq!['\n'],
    )
}

/// The end of the text of the line `c[lo..hi]`, its line ending left out.
pub(crate) fn line_text_end(c: &Vec<char>, lo: usize, hi: usize) -> (y: usize)
    requires
        lo <= hi <= c.len(),
    ensures
        lo <= y <= hi,
        c@.subrange(lo as int, y as int) == line_text(c@.subrange(lo as int, hi as int)),
{
    let ghost l = c@.subrange(lo as int, hi as int);
    if hi > lo && c[hi - 1] == '\n' {
        assert(l.last() == c@[hi - 1]);
        if hi - 1 > lo && c[hi - 2] == '\r' {
            assert(l.drop_last().last() == c@[hi - 2]);
            assert(c@.subrange(lo as int, hi - 2) =~= l.drop_last().drop_last());
            hi - 2
        } else {
            proof {
                if hi - 1 > lo {
                    assert(l.drop_last().last() == c@[hi - 2]);
                }
            }
            assert(c@.subrange(lo as int, hi - 1) =~= l.drop_last());
            hi - 1
        }
    } else {
        proof {
            if hi > lo {
                assert(l.last() == c@[hi - 1]);
            }
        }
        hi
    }
}

/// Whether `c[lo..hi]` is blank.
fn is_blank(c: &Vec<char>, lo: usize, hi: usize) -> (r: bool)
    requires
        lo <= hi <= c.len(),
    ensures
        r == blank(c@.subrange(lo as int, hi as int)),
{
    let ghost l = c@.subrange(lo as int, hi as int);
    let mut k = lo;
    while k < hi
        invariant
            lo <= k <= hi <= c.len(),
            l == c@.subrange(lo as int, hi as int),
            forall|j: int| 0 <= j < k - lo ==> text::is_white(#[trigger] l[j]),
        decreases hi - k,
    {
        if !text::is_whitespace(c[k]) {
            assert(l[k - lo] == c@[k as int]);
            return false;
        }
        assert(l[k - lo] == c@[k as int]);
        k = k + 1;
    }
    true
}

/// The first `n` non-frontmatter lines of a memo, with leading blank lines
/// trimmed so the preview starts at real content.
pub fn content_preview(content: &str, n: usize) -> (r: String)
    ensures
        r@ == preview(content@, n as nat),
{
    let body = strip_frontmatter(content);
    let c = text::chars_of(body);
    let len = c.len();
    let r = text::split_lines(&c, 0, len);
    let ghost ls = str_lines(c@);
    proof {
        assert(c@.subrange(0, len as int) =~= c@);
        assert(ls.len() == r@.len());
        assert forall|k: int| 0 <= k < r@.len() implies ls[k] == line_text(
            c@.subrange(r@[k].0 as int, r@[k].1 as int),
        ) by {
            assert(text::range_texts(c@, r@)[k] == c@.subrange(r@[k].0 as int, r@[k].1 as int));
        }
    }
    let mut k: usize = 0;
    while k < r.len()
        invariant
            k <= r.len() == ls.len(),
            text::within(r@, len as int),
            len == c.len(),
            forall|j: int| 0 <= j < r@.len() ==> #[trigger] ls[j] == line_text(
                c@.subrange(r@[j].0 as int, r@[j].1 as int),
            ),
            forall|j: int| 0 <= j < k ==> !(filled())(#[trigger] ls[j]),
        ensures
            k <= r.len(),
            k < r.len() ==> (filled())(ls[k as int]),
        decreases r.len() - k,
    {
        let (lo, hi) = r[k];
        let y = line_text_end(&c, lo, hi);
        if !is_blank(&c, lo, y) {
            assert((filled())(ls[k as int]));
            break;
        }
        proof {
            assert(!(filled())(ls[k as int]));
        }
        k = k + 1;
    }
    proof {
        text::lemma_first_from_is(ls, filled(), 0, k as int);
    }
    let ghost rest = ls.skip(k as int);
    let mut out: Vec<char> = Vec::new();
    let mut t: usize = 0;
    while t < n && k + t < r.len()
        invariant
            k <= r.len() == ls.len(),
            rest == ls.skip(k as int),
            t <= n,
            k + t <= r.len(),
            text::within(r@, len as int),
            len == c.len(),
            forall|j: int| 0 <= j < r@.len() ==> #[trigger] ls[j] == line_text(
                c@.subrange(r@[j].0 as int, r@[j].1 as int),
            ),
            out@ == text::join(rest.take(t as int), seq!['\n']),
        decreases n - t,
    {
        let (lo, hi) = r[k + t];
        let y = line_text_end(&c, lo, hi);
        proof {
            text::lemma_join_push(rest.take(t as int), rest[t as int], seq!['\n']);
            assert(rest.take(t + 1) =~= rest.take(t as int).push(rest[t as int]));
            assert(rest[t as int] == ls[k + t]);
        }
        if t > 0 {
            out.push('\n');
        }
        text::push_range(&mut out, &c, lo, y);
        t = t + 1;
    }
    proof {
        assert(body@ == body_of(content@));
        if t < n {
            assert(k + t == r.len());
        }
    }
    text::string_from_chars(out.as_slice())
}

/// `a` is a strictly earlier day than `b`.
pub open spec fn earlier(a: Date, b: Date) -> bool {
    a.le(b) && !b.le(a)
}

/// The listing order of memos: by `(year, week)` folder, then date, then
/// title (as `str` orders them).
pub open spec fn key_lt(a: Memo, b: Memo) -> bool {
    ||| a.year < b.year
    ||| a.year == b.year && a.week < b.week
    ||| a.year == b.year && a.week == b.week && earlier(a.date, b.date)
    ||| a.year == b.year && a.week == b.week && a.date == b.date && order::text_lt(a.title@, b.title@)
}

/// The memos are equal in the listing order.
pub open spec fn same_key(a: Memo, b: Memo) -> bool {
    a.year == b.year && a.week == b.week && a.date == b.date && a.title@ == b.title@
}

/// Position `i` of `ms` is listed before position `j`: an earlier key, or
/// the same key and an earlier position (a stable sort).
pub open spec fn listed_before(ms: Seq<Memo>, i: int, j: int) -> bool {
    key_lt(ms[i], ms[j]) || (same_key(ms[i], ms[j]) && i < j)
}

/// The listing order as a relation on positions.
pub open spec fn listing(ms: Seq<Memo>) -> spec_fn(int, int) -> bool {
    |i: int, j: int| listed_before(ms, i, j)
}

proof fn lemma_key_order(a: Memo, b: Memo, c: Memo)
    ensures
        !key_lt(a, a),
        key_lt(a, b) && key_lt(b, c) ==> key_lt(a, c),
        key_lt(a, b) && same_key(b, c) ==> key_lt(a, c),
        same_key(a, b) && key_lt(b, c) ==> key_lt(a, c),
        same_key(a, b) ==> !key_lt(a, b) && !key_lt(b, a),
        key_lt(a, b) || key_lt(b, a) || same_key(a, b),
{
    order::lemma_text_lt_irreflexive(a.title@);
    order::lemma_text_lt_irreflexive(b.title@);
    if order::text_lt(a.title@, b.title@) && order::text_lt(b.title@, c.title@) {
        order::lemma_text_lt_transitive(a.title@, b.title@, c.title@);
    }
    if order::text_lt(a.title@, b.title@) && order::text_lt(b.title@, a.title@) {
        order::lemma_text_lt_transitive(a.title@, b.title@, a.title@);
    }
    order::lemma_text_lt_total(a.title@, b.title@);
    a.date.lemma_same_date(b.date);
    b.date.lemma_same_date(c.date);
    a.date.lemma_same_date(c.date);
}

/// The listing order is a strict total order on the positions of `ms`.
proof fn lemma_listing_total(ms: Seq<Memo>)
    ensures
        order::strict_total(listing(ms), ms.len() as int),
{
    let f = listing(ms);
    assert forall|i: int| 0 <= i < ms.len() implies !#[trigger] f(i, i) by {
        lemma_key_order(ms[i], ms[i], ms[i]);
    }
    assert forall|i: int, j: int, k: int|
        0 <= i < ms.len() && 0 <= j < ms.len() && 0 <= k < ms.len() && #[trigger] f(i, j)
            && #[trigger] f(j, k) implies f(i, k) by {
        lemma_key_order(ms[i], ms[j], ms[k]);
        lemma_key_order(ms[i], ms[k], ms[j]);
        lemma_key_order(ms[j], ms[i], ms[k]);
    }
    assert forall|i: int, j: int| 0 <= i < ms.len() && 0 <= j < ms.len() && i != j implies #[trigger] f(
        i,
        j,
    ) || f(j, i) by {
        lemma_key_order(ms[i], ms[j], ms[j]);
    }
}

/// The memos of the groups, one group after the other.
pub open spec fn members(gs: Seq<Group>) -> Seq<Memo>
    decreases gs.len(),
{
    if gs.len() == 0 {
        seq![]
    } else {
        members(gs.drop_last()) + gs.last().memos@
    }
}

/// The folder `(year, week)` of group `g` comes before that of `h`.
pub open spec fn folder_lt(g: Group, h: Group) -> bool {
    g.year < h.year || (g.year == h.year && g.week < h.week)
}

/// Each group holds memos of its own folder, none is empty, and the folders
/// ascend.
pub open spec fn is_grouping(gs: Seq<Group>) -> bool {
    &&& forall|i: int| 0 <= i < gs.len() ==> (#[trigger] gs[i]).memos.len() > 0
    &&& forall|i: int, k: int|
        0 <= i < gs.len() && 0 <= k < gs[i].memos.len() ==> (#[trigger] gs[i].memos@[k]).year
            == gs[i].year && gs[i].memos@[k].week == gs[i].week
    &&& forall|i: int, j: int| 0 <= i < j < gs.len() ==> folder_lt(#[trigger] gs[i], #[trigger] gs[j])
}

/// The memos at the positions `p` of `ms`.
pub open spec fn at_positions(ms: Seq<Memo>, p: Seq<usize>) -> Seq<Memo> {
    p.map_values(|i: usize| ms[i as int])
}

/// Whether position `a` is listed before position `b`.
fn listed_first(ms: &Vec<Memo>, titles: &Vec<Vec<char>>, a: usize, b: usize) -> (r: bool)
    requires
        a < ms.len(),
        b < ms.len(),
        titles.len() == ms.len(),
        forall|i: int| 0 <= i < ms.len() ==> (#[trigger] titles@[i])@ == ms@[i].title@,
    ensures
        r == listed_before(ms@, a as int, b as int),
{
    let x = &ms[a];
    let y = &ms[b];
    if x.year != y.year {
        return x.year < y.year;
    }
    if x.week != y.week {
        return x.week < y.week;
    }
    proof {
        x.date.lemma_same_date(y.date);
    }
    if x.date != y.date {
        return x.date.on_or_before(&y.date) && !y.date.on_or_before(&x.date);
    }
    let ta = &titles[a];
    let tb = &titles[b];
    if order::text_less(ta, tb) {
        return true;
    }
    if order::text_less(tb, ta) {
        return false;
    }
    proof {
        order::lemma_text_lt_total(x.title@, y.title@);
    }
    a < b
}

/// The memos, each in its own slot.
pub(crate) fn into_slots(memos: Vec<Memo>) -> (r: Vec<Option<Memo>>)
    ensures
        r.len() == memos.len(),
        forall|i: int| 0 <= i < r.len() ==> #[trigger] r@[i] == Some(memos@[i]),
{
    let ghost all = memos@;
    let mut out: Vec<Option<Memo>> = Vec::new();
    for m in it: memos
        invariant
            all == it.seq(),
            out.len() == it.index(),
            forall|i: int| 0 <= i < out.len() ==> #[trigger] out@[i] == Some(all[i]),
    {
        out.push(Some(m));
    }
    out
}

/// Group memos by `(year, week)` folder, the folders ascending; within a
/// folder the memos are ordered by date, then title, and otherwise keep
/// their order.
pub fn group(memos: Vec<Memo>) -> (r: Vec<Group>)
    ensures
        is_grouping(r@),
        exists|p: Seq<usize>|
            order::covers(p, memos.len() as int) && order::ordered(p, listing(memos@)) && members(r@)
                == at_positions(memos@, p),
{
    let n = memos.len();
    let ghost ms = memos@;
    let mut titles: Vec<Vec<char>> = Vec::new();
    let mut i: usize = 0;
    while i < n
        invariant
            i <= n == memos.len(),
            titles.len() == i,
            forall|k: int| 0 <= k < i ==> (#[trigger] titles@[k])@ == memos@[k].title@,
        decreases n - i,
    {
        titles.push(text::chars_of(memos[i].title.as_str()));
        i = i + 1;
    }
    proof {
        lemma_listing_total(ms);
    }
    let decide = |a: usize, b: usize| -> (r: bool)
        requires
            a < n,
            b < n,
        ensures
            r == listed_before(memos@, a as int, b as int),
        { listed_first(&memos, &titles, a, b) };
    let p = order::sort_positions(n, &decide, Ghost(listing(ms)));
    let mut slots = into_slots(memos);
    let mut gs: Vec<Group> = Vec::new();
    let mut t: usize = 0;
    while t < n
        invariant
            t <= n == p.len() == slots.len() == ms.len(),
            order::covers(p@, n as int),
            order::ordered(p@, listing(ms)),
            order::strict_total(listing(ms), n as int),
            forall|s: int| t <= s < n ==> #[trigger] slots@[p@[s] as int] == Some(ms[p@[s] as int]),
            is_grouping(gs@),
            members(gs@) == at_positions(ms, p@.take(t as int)),
            t > 0 ==> gs.len() > 0 && gs@.last().year == ms[p@[t - 1] as int].year
                && gs@.last().week == ms[p@[t - 1] as int].week,
            t == 0 ==> gs.len() == 0,
        decreases n - t,
    {
        let pos = p[t];
        let mut taken: Option<Memo> = None;
        slots.set_and_swap(pos, &mut taken);
        let m = match taken {
            Some(m) => m,
            None => {
                assert(false);
                return gs;
            },
        };
        let ghost old_gs = gs@;
        proof {
            assert forall|s: int| t + 1 <= s < n implies #[trigger] slots@[p@[s] as int] == Some(
                ms[p@[s] as int],
            ) by {
                assert(listing(ms)(p@[t as int] as int, p@[s] as int));
                assert(p@[s] != p@[t as int]);
            }
            assert(p@.take(t + 1) =~= p@.take(t as int).push(pos));
            assert(at_positions(ms, p@.take(t + 1)) =~= at_positions(ms, p@.take(t as int)).push(
                ms[pos as int],
            ));
        }
        let same_folder = match gs.last() {
            Some(g) => g.year == m.year && g.week == m.week,
            None => false,
        };
        if same_folder {
            let mut g = match gs.pop() {
                Some(g) => g,
                None => {
                    assert(false);
                    return gs;
                },
            };
            let ghost og = g;
            g.memos.push(m);
            gs.push(g);
            proof {
                assert(gs@.drop_last() == old_gs.drop_last());
                assert(gs@ =~= old_gs.drop_last().push(g));
                assert(members(gs@) =~= members(old_gs) + seq![ms[pos as int]]);
                assert forall|a: int| 0 <= a < gs@.len() implies (#[trigger] gs@[a]).memos.len() > 0 by {
                    if a < gs@.len() - 1 {
                        assert(gs@[a] == old_gs[a]);
                    }
                }
                assert forall|a: int, k: int|
                    0 <= a < gs@.len() && 0 <= k < gs@[a].memos.len() implies (#[trigger] gs@[a].memos@[k]).year
                        == gs@[a].year && gs@[a].memos@[k].week == gs@[a].week by {
                    if a < gs@.len() - 1 {
                        assert(gs@[a] == old_gs[a]);
                    } else if k < og.memos.len() {
                        assert(gs@[a].memos@[k] == old_gs[a].memos@[k]);
                    }
                }
                assert forall|a: int, b: int| 0 <= a < b < gs@.len() implies folder_lt(
                    #[trigger] gs@[a],
                    #[trigger] gs@[b],
                ) by {
                    assert(gs@[a].year == old_gs[a].year && gs@[a].week == old_gs[a].week);
                    assert(gs@[b].year == old_gs[b].year && gs@[b].week == old_gs[b].week);
                    assert(folder_lt(old_gs[a], old_gs[b]));
                }
            }
        } else {
            let year = m.year;
            let week = m.week;
            let g = Group { year, week, memos: vec![m] };
            gs.push(g);
            proof {
                assert(gs@.drop_last() =~= old_gs);
                assert(members(gs@) =~= members(old_gs) + seq![ms[pos as int]]);
                if t > 0 {
                    let prev = ms[p@[t - 1] as int];
                    let cur = ms[pos as int];
                    assert(listing(ms)(p@[t - 1] as int, pos as int));
                    assert(prev.year < cur.year || (prev.year == cur.year && prev.week < cur.week));
                    assert forall|a: int, b: int| 0 <= a < b < gs@.len() implies folder_lt(
                        #[trigger] gs@[a],
                        #[trigger] gs@[b],
                    ) by {
                        if b == gs@.len() - 1 {
                            if a < old_gs.len() - 1 {
                                assert(folder_lt(old_gs[a], old_gs.last()));
                            }
                        } else {
                            assert(folder_lt(old_gs[a], old_gs[b]));
                        }
                    }
                }
                assert forall|a: int, k: int|
                    0 <= a < gs@.len() && 0 <= k < gs@[a].memos.len() implies (#[trigger] gs@[a].memos@[k]).year
                        == gs@[a].year && gs@[a].memos@[k].week == gs@[a].week by {
                    if a < gs@.len() - 1 {
                        assert(gs@[a] == old_gs[a]);
                    }
                }
                assert forall|a: int| 0 <= a < gs@.len() implies (#[trigger] gs@[a]).memos.len() > 0 by {
                    if a < gs@.len() - 1 {
                        assert(gs@[a] == old_gs[a]);
                    }
                }
            }
        }
        t = t + 1;
    }
    proof {
        assert(p@.take(n as int) =~= p@);
    }
    gs
}

/// Each text of `ts` between `pre` and `post`.
pub open spec fn wrapped(ts: Seq<Seq<char>>, pre: Seq<char>, post: Seq<char>) -> Seq<Seq<char>> {
    Seq::new(ts.len(), |i: int| pre + ts[i] + post)
}

/// Appends the texts of `ts`, each between `pre` and `post`, with `sep`
/// between neighbours.
pub fn push_wrapped(out: &mut Vec<char>, ts: &[String], pre: &Vec<char>, post: &Vec<char>, sep: &Vec<char>)
    ensures
        final(out)@ == old(out)@ + text::join(wrapped(ts.deep_view(), pre@, post@), sep@),
{
    let ghost start = out@;
    let ghost ws = wrapped(ts.deep_view(), pre@, post@);
    let mut i: usize = 0;
    while i < ts.len()
        invariant
            i <= ts.len(),
            ws == wrapped(ts.deep_view(), pre@, post@),
            ws.len() == ts.len(),
            out@ == start + text::join(ws.take(i as int), sep@),
        decreases ts.len() - i,
    {
        proof {
            text::lemma_join_push(ws.take(i as int), ws[i as int], sep@);
            assert(ws.take(i + 1) =~= ws.take(i as int).push(ws[i as int]));
            assert(ws[i as int] == pre@ + ts@[i as int]@ + post@);
        }
        if i > 0 {
            text::push_all(out, sep);
        }
        text::push_all(out, pre);
        text::push_str(out, ts[i].as_str());
        text::push_all(out, post);
        proof {
            assert(out@ =~= start + text::join(ws.take(i + 1), sep@));
        }
        i = i + 1;
    }
    proof {
        assert(ws.take(ts.len() as int) =~= ws);
    }
}

/// `  #work #urgent` for a tagged memo, nothing when it has no tags.
pub open spec fn tags_suffix_text(tags: Seq<Seq<char>>) -> Seq<char> {
    if tags.len() == 0 {
        seq![]
    } else {
        seq![' ', ' '] + text::join(wrapped(tags, seq!['#'], seq![]), seq![' '])
    }
}

/// `  #work #urgent` for a tagged memo (plain), or an empty string when there
/// are none: the markdown rendering of tags.
pub fn tags_suffix(tags: &[String]) -> (r: String)
    ensures
        r@ == tags_suffix_text(tags.deep_view()),
{
    let mut out: Vec<char> = Vec::new();
    if tags.len() > 0 {
        out.push(' ');
        out.push(' ');
        let pre: Vec<char> = vec!['#'];
        let post: Vec<char> = Vec::new();
        let sep: Vec<char> = vec![' '];
        assert(pre@ =~= seq!['#'] && post@ =~= Seq::<char>::empty() && sep@ =~= seq![' ']);
        push_wrapped(&mut out, tags, &pre, &post, &sep);
        assert(out@ =~= tags_suffix_text(tags.deep_view()));
    }
    text::string_from_chars(out.as_slice())
}

/// The tags after a memo line, in magenta when color is on.
pub open spec fn colored_tags_text(style: Style, tags: Seq<Seq<char>>) -> Seq<char> {
    if tags.len() == 0 {
        seq![]
    } else {
        let joined = text::join(wrapped(tags, seq!['#'], seq![]), seq![' ']);
        seq![' ', ' '] + if style.color {
            output::painted(Tint::Magenta, joined)
        } else {
            joined
        }
    }
}

/// `  #work #urgent` trailing a memo line, in magenta when color is enabled,
/// or an empty string when there are no tags.
pub fn colored_tags(style: &Style, tags: &[String]) -> (r: String)
    ensures
        r@ == colored_tags_text(*style, tags.deep_view()),
{
    if tags.len() == 0 {
        return String::new();
    }
    let mut joined: Vec<char> = Vec::new();
    let pre: Vec<char> = vec!['#'];
    let post: Vec<char> = Vec::new();
    let sep: Vec<char> = vec![' '];
    assert(pre@ =~= seq!['#'] && post@ =~= Seq::<char>::empty() && sep@ =~= seq![' ']);
    push_wrapped(&mut joined, tags, &pre, &post, &sep);
    let mut out: Vec<char> = vec![' ', ' '];
    if style.color {
        let j = text::string_from_chars(joined.as_slice());
        let painted = output::paint(Tint::Magenta, j.as_str());
        text::push_str(&mut out, painted.as_str());
    } else {
        text::push_all(&mut out, &joined);
    }
    assert(out@ =~= colored_tags_text(*style, tags.deep_view()));
    text::string_from_chars(out.as_slice())
}

/// A group heading, bold cyan when color is on.
pub open spec fn heading_text(style: Style, t: Seq<char>) -> Seq<char> {
    if style.color {
        output::painted(Tint::BoldCyan, t)
    } else {
        t
    }
}

/// A bold-cyan group heading (plain text when color is disabled).
pub fn heading(style: &Style, t: &str) -> (r: String)
    ensures
        r@ == heading_text(*style, t@),
{
    if !style.color {
        return t.to_string();
    }
    output::paint(Tint::BoldCyan, t)
}

/// A week number as two digits at least.
pub open spec fn week_text(w: u32) -> Seq<char> {
    date::zero_pad(date::decimal(w as nat), 2)
}

/// `<year> · week NN`.
pub open spec fn folder_heading(g: Group) -> Seq<char> {
    date::int_text(g.year as int) + seq![' ', '\u{b7}'] + " week "@ + week_text(g.week)
}

/// The bullet of a memo line.
pub open spec fn bullet(style: Style) -> Seq<char> {
    if style.emoji {
        seq!['\u{1F4CE}']
    } else {
        seq!['-']
    }
}

/// A memo line of the text overview: the title as a link, then the tags.
pub open spec fn item_line(style: Style, m: Memo) -> Seq<char> {
    seq![' ', ' '] + bullet(style) + seq![' '] + output::link_text(style.hyperlinks, m.title@, m.path@)
        + colored_tags_text(style, m.tags.deep_view())
}

/// The lines of one group: a blank line unless it is the first group, the
/// heading, and a line per memo.
pub open spec fn group_lines(style: Style, g: Group, first: bool) -> Seq<Seq<char>> {
    (if first {
        seq![]
    } else {
        seq![seq![]]
    }) + seq![heading_text(style, folder_heading(g))] + Seq::new(
        g.memos.len() as nat,
        |k: int| item_line(style, g.memos@[k]),
    )
}

/// The lines of the groups.
pub open spec fn overview_lines(style: Style, gs: Seq<Group>) -> Seq<Seq<char>>
    decreases gs.len(),
{
    if gs.len() == 0 {
        seq![]
    } else {
        overview_lines(style, gs.drop_last()) + group_lines(style, gs.last(), gs.len() == 1)
    }
}

/// `no memos found`.
pub open spec fn no_memos() -> Seq<char> {
    "no memos found"@
}

/// The message for an empty overview.
pub fn output_no_memos(style: &Style) -> (r: String)
    ensures
        r@ == output::success_message(*style, no_memos()),
{
    output::success(style, "no memos found")
}

/// Appends `int_text(year) · week NN`.
fn folder_heading_of(g: &Group) -> (r: String)
    ensures
        r@ == folder_heading(*g),
{
    let mut v: Vec<char> = Vec::new();
    date::push_int(&mut v, g.year as i64);
    v.push(' ');
    v.push('\u{b7}');
    text::push_str(&mut v, " week ");
    date::push_padded(&mut v, g.week as u64, 2);
    text::string_from_chars(v.as_slice())
}

/// The human-facing text overview, line by line: a heading per group, then
/// one indented memo per line whose title is a link (the path itself is not
/// shown) followed by its tags; a blank line between groups. An empty
/// overview is the message that no memos were found.
pub fn render_text(style: &Style, groups: &[Group]) -> (r: Vec<String>)
    ensures
        groups.len() == 0 ==> r.deep_view() == seq![output::success_message(*style, no_memos())],
        groups.len() > 0 ==> r.deep_view() == overview_lines(*style, groups@),
{
    let mut out: Vec<String> = Vec::new();
    if groups.len() == 0 {
        out.push(output_no_memos(style));
        assert(out.deep_view() =~= seq![output::success_message(*style, no_memos())]);
        return out;
    }
    let ghost gv = groups@;
    let mut i: usize = 0;
    while i < groups.len()
        invariant
            i <= groups.len(),
            gv == groups@,
            out.deep_view() == overview_lines(*style, gv.take(i as int)),
        decreases groups.len() - i,
    {
        let g = &groups[i];
        let ghost before = out.deep_view();
        if i > 0 {
            out.push(String::new());
        }
        let h = folder_heading_of(g);
        out.push(heading(style, h.as_str()));
        let mut k: usize = 0;
        while k < g.memos.len()
            invariant
                k <= g.memos.len(),
                i < groups.len(),
                *g == gv[i as int],
                out.deep_view() == before + (if i == 0 {
                    seq![]
                } else {
                    seq![seq![]]
                }) + seq![heading_text(*style, folder_heading(*g))] + Seq::new(
                    k as nat,
                    |j: int| item_line(*style, g.memos@[j]),
                ),
            decreases g.memos.len() - k,
        {
            let m = &g.memos[k];
            let mut v: Vec<char> = vec![' ', ' '];
            if style.emoji {
                v.push('\u{1F4CE}');
            } else {
                v.push('-');
            }
            v.push(' ');
            let l = style.link(m.title.as_str(), m.path.as_str());
            text::push_str(&mut v, l.as_str());
            let t = colored_tags(style, m.tags.as_slice());
            text::push_str(&mut v, t.as_str());
            let ghost prev = out.deep_view();
            out.push(text::string_from_chars(v.as_slice()));
            proof {
                assert(v@ =~= item_line(*style, *m));
                assert(out.deep_view() =~= prev.push(item_line(*style, *m)));
                assert(Seq::new((k + 1) as nat, |j: int| item_line(*style, g.memos@[j])) =~= Seq::new(
                    k as nat,
                    |j: int| item_line(*style, g.memos@[j]),
                ).push(item_line(*style, g.memos@[k as int])));
            }
            k = k + 1;
        }
        proof {
            assert(gv.take(i + 1).drop_last() =~= gv.take(i as int));
            assert(gv.take(i + 1).last() == gv[i as int]);
            assert(Seq::new(g.memos.len() as nat, |j: int| item_line(*style, g.memos@[j])) =~= Seq::new(
                k as nat,
                |j: int| item_line(*style, g.memos@[j]),
            ));
            assert(out.deep_view() =~= overview_lines(*style, gv.take(i + 1)));
        }
        i = i + 1;
    }
    proof {
        assert(gv.take(groups.len() as int) =~= gv);
    }
    out
}

/// A group's memos come, in order, after those of the groups before it.
proof fn lemma_members_take(gs: Seq<Group>, i: int)
    requires
        0 <= i < gs.len(),
    ensures
        members(gs.take(i + 1)) == members(gs.take(i)) + gs[i].memos@,
{
    assert(gs.take(i + 1).drop_last() =~= gs.take(i));
    assert(gs.take(i + 1).last() == gs[i]);
}

/// The memos of the first groups are no more than all of them.
proof fn lemma_members_len(gs: Seq<Group>, j: int)
    requires
        0 <= j <= gs.len(),
    ensures
        members(gs.take(j)).len() <= members(gs).len(),
    decreases gs.len(),
{
    if j == gs.len() {
        assert(gs.take(j) =~= gs);
    } else {
        let d = gs.drop_last();
        assert(gs.take(j) =~= d.take(j));
        lemma_members_len(d, j);
    }
}

/// A markdown bullet: `- [title][n]` and the tags.
pub open spec fn md_item(m: Memo, num: nat) -> Seq<char> {
    "- ["@ + m.title@ + "]["@ + date::decimal(num) + seq![']'] + tags_suffix_text(m.tags.deep_view()) + seq!['\n']
}

/// A markdown link reference: `[n]: file://<path>`.
pub open spec fn md_ref(m: Memo, num: nat) -> Seq<char> {
    seq!['['] + date::decimal(num) + "]: "@ + output::file_scheme() + output::encode_spaces(m.path@) + seq!['\n']
}

/// The bullets of `ms`, numbered from `base + 1`.
pub open spec fn md_items(ms: Seq<Memo>, base: nat) -> Seq<char>
    decreases ms.len(),
{
    if ms.len() == 0 {
        seq![]
    } else {
        md_items(ms.drop_last(), base) + md_item(ms.last(), base + ms.len())
    }
}

/// The link references of `ms`, numbered from `base + 1`.
pub open spec fn md_refs(ms: Seq<Memo>, base: nat) -> Seq<char>
    decreases ms.len(),
{
    if ms.len() == 0 {
        seq![]
    } else {
        md_refs(ms.drop_last(), base) + md_ref(ms.last(), base + ms.len())
    }
}

/// A week section: the `## year/week` heading, the bullets, and the link
/// references of the section.
pub open spec fn md_section(g: Group, base: nat) -> Seq<char> {
    "\n## "@ + date::int_text(g.year as int) + seq!['/'] + week_text(g.week) + "\n\n"@ + md_items(g.memos@, base)
        + seq!['\n'] + md_refs(g.memos@, base)
}

/// The week sections, the references numbered across them.
pub open spec fn md_sections(gs: Seq<Group>) -> Seq<char>
    decreases gs.len(),
{
    if gs.len() == 0 {
        seq![]
    } else {
        md_sections(gs.drop_last()) + md_section(gs.last(), members(gs.drop_last()).len())
    }
}

/// The markdown overview.
pub open spec fn markdown(gs: Seq<Group>) -> Seq<char> {
    if gs.len() == 0 {
        "# Memos\n\n_No memos found._\n"@
    } else {
        "# Memos\n"@ + md_sections(gs)
    }
}

/// Markdown overview: a `# Memos` title, then a `## year/week` section per
/// group with a bullet per memo. Reference-style links keep the bullets
/// short; the `file://` URLs (spaces encoded) are listed at the end of each
/// section, numbered across the whole document.
pub fn render_markdown(groups: &[Group]) -> (r: String)
    requires
        members(groups@).len() <= usize::MAX,
    ensures
        r@ == markdown(groups@),
{
    if groups.len() == 0 {
        return "# Memos\n\n_No memos found._\n".to_string();
    }
    let ghost gv = groups@;
    let mut out: Vec<char> = Vec::new();
    text::push_str(&mut out, "# Memos\n");
    let mut refnum: usize = 0;
    let mut i: usize = 0;
    while i < groups.len()
        invariant
            i <= groups.len(),
            gv == groups@,
            members(gv).len() <= usize::MAX,
            refnum == members(gv.take(i as int)).len(),
            out@ == "# Memos\n"@ + md_sections(gv.take(i as int)),
        decreases groups.len() - i,
    {
        let g = &groups[i];
        proof {
            lemma_members_take(gv, i as int);
            lemma_members_len(gv, i + 1);
        }
        let ghost base = refnum as nat;
        let ghost start = out@;
        text::push_str(&mut out, "\n## ");
        date::push_int(&mut out, g.year as i64);
        out.push('/');
        date::push_padded(&mut out, g.week as u64, 2);
        text::push_str(&mut out, "\n\n");
        let ghost head = out@;
        let mut refs: Vec<char> = Vec::new();
        let mut k: usize = 0;
        while k < g.memos.len()
            invariant
                k <= g.memos.len(),
                i < groups.len(),
                *g == gv[i as int],
                base + g.memos.len() <= usize::MAX,
                refnum == base + k,
                out@ == head + md_items(g.memos@.take(k as int), base),
                refs@ == md_refs(g.memos@.take(k as int), base),
            decreases g.memos.len() - k,
        {
            let m = &g.memos[k];
            refnum = refnum + 1;
            proof {
                assert(g.memos@.take(k + 1).drop_last() =~= g.memos@.take(k as int));
                assert(g.memos@.take(k + 1).last() == *m);
            }
            text::push_str(&mut out, "- [");
            text::push_str(&mut out, m.title.as_str());
            text::push_str(&mut out, "][");
            date::push_decimal(&mut out, refnum as u64);
            out.push(']');
            let t = tags_suffix(m.tags.as_slice());
            text::push_str(&mut out, t.as_str());
            out.push('\n');
            refs.push('[');
            date::push_decimal(&mut refs, refnum as u64);
            text::push_str(&mut refs, "]: file://");
            output::push_encoded(&mut refs, m.path.as_str());
            refs.push('\n');
            proof {
                reveal_strlit("]: file://");
                reveal_strlit("]: ");
                assert(out@ =~= head + md_items(g.memos@.take(k + 1), base));
                assert(refs@ =~= md_refs(g.memos@.take(k + 1), base));
            }
            k = k + 1;
        }
        out.push('\n');
        text::push_all(&mut out, &refs);
        proof {
            assert(g.memos@.take(k as int) =~= g.memos@);
            assert(gv.take(i + 1).drop_last() =~= gv.take(i as int));
            assert(gv.take(i + 1).last() == gv[i as int]);
            assert(out@ =~= start + md_section(*g, base));
            assert(out@ =~= "# Memos\n"@ + md_sections(gv.take(i + 1)));
        }
        i = i + 1;
    }
    proof {
        assert(gv.take(groups.len() as int) =~= gv);
    }
    text::string_from_chars(out.as_slice())
}

/// Number of leading lines of each memo shown as a preview in verbose
/// markdown.
pub const PREVIEW_LINES: usize = 10;

/// The tags of a verbose section: each as inline code, space separated.
pub open spec fn tag_code_list(tags: Seq<Seq<char>>) -> Seq<char> {
    text::join(wrapped(tags, seq!['`', '#'], seq!['`']), seq![' '])
}

/// One verbose section: `# Title: `#tag``, a `file://` link, and a preview
/// of the content.
pub open spec fn verbose_section(m: Memo, content: Seq<char>) -> Seq<char> {
    let p = preview(content, PREVIEW_LINES as nat);
    "# "@ + m.title@ + (if m.tags.len() > 0 {
        ": "@ + tag_code_list(m.tags.deep_view())
    } else {
        seq![]
    }) + seq!['\n'] + "\n[file]("@ + output::file_scheme() + output::encode_spaces(m.path@) + ")\n"@ + (
    if p.len() > 0 {
        seq!['\n'] + p + seq!['\n']
    } else {
        seq![]
    })
}

/// The sections of `ms` (with contents `cs`, position by position), a blank
/// line between neighbours.
pub open spec fn verbose_sections(ms: Seq<Memo>, cs: Seq<Seq<char>>) -> Seq<char>
    decreases ms.len(),
{
    if ms.len() == 0 {
        seq![]
    } else {
        verbose_sections(ms.drop_last(), cs) + (if ms.len() > 1 {
            seq!['\n']
        } else {
            seq![]
        }) + verbose_section(ms.last(), cs[ms.len() - 1])
    }
}

/// The verbose markdown overview.
pub open spec fn markdown_verbose(gs: Seq<Group>, cs: Seq<Seq<char>>) -> Seq<char> {
    if gs.len() == 0 {
        "_No memos found._\n"@
    } else {
        verbose_sections(members(gs), cs)
    }
}

/// Appends one verbose section.
#[verifier::rlimit(40)]
#[verifier::spinoff_prover]
fn push_verbose_section(out: &mut Vec<char>, m: &Memo, content: &str)
    ensures
        final(out)@ == old(out)@ + verbose_section(*m, content@),
{
    text::push_str(out, "# ");
    text::push_str(out, m.title.as_str());
    if m.tags.len() > 0 {
        text::push_str(out, ": ");
        let pre: Vec<char> = vec!['`', '#'];
        let post: Vec<char> = vec!['`'];
        let sep: Vec<char> = vec![' '];
        assert(pre@ =~= seq!['`', '#'] && post@ =~= seq!['`'] && sep@ =~= seq![' ']);
        push_wrapped(out, m.tags.as_slice(), &pre, &post, &sep);
    }
    out.push('\n');
    text::push_str(out, "\n[file](file://");
    output::push_encoded(out, m.path.as_str());
    text::push_str(out, ")\n");
    let p = content_preview(content, PREVIEW_LINES);
    if p.as_str().unicode_len() > 0 {
        out.push('\n');
        text::push_str(out, p.as_str());
        out.push('\n');
    }
    proof {
        reveal_strlit("\n[file](file://");
        reveal_strlit("\n[file](");
        assert(final(out)@ =~= old(out)@ + verbose_section(*m, content@));
    }
}

/// Verbose markdown: one section per memo, each with an H1 title carrying
/// its tags (as inline code), a `file://` link, and a preview of the first
/// [`PREVIEW_LINES`] lines of its content. `contents` holds the content of
/// each memo, in the grouped order (week, then date); an unreadable memo
/// has empty content and gets no preview.
pub fn render_markdown_verbose(groups: &[Group], contents: &[String]) -> (r: String)
    requires
        contents.len() == members(groups@).len(),
    ensures
        r@ == markdown_verbose(groups@, contents.deep_view()),
{
    if groups.len() == 0 {
        return "_No memos found._\n".to_string();
    }
    let ghost gv = groups@;
    let ghost cs = contents.deep_view();
    let mut out: Vec<char> = Vec::new();
    let mut j: usize = 0;
    let mut i: usize = 0;
    while i < groups.len()
        invariant
            i <= groups.len(),
            gv == groups@,
            cs == contents.deep_view(),
            contents.len() == members(gv).len(),
            j == members(gv.take(i as int)).len(),
            out@ == verbose_sections(members(gv.take(i as int)), cs),
        decreases groups.len() - i,
    {
        let g = &groups[i];
        proof {
            lemma_members_take(gv, i as int);
            lemma_members_len(gv, i + 1);
        }
        let ghost done = members(gv.take(i as int));
        let mut k: usize = 0;
        while k < g.memos.len()
            invariant
                k <= g.memos.len(),
                i < groups.len(),
                *g == gv[i as int],
                cs == contents.deep_view(),
                done.len() + g.memos.len() <= contents.len(),
                j == done.len() + k,
                out@ == verbose_sections(done + g.memos@.take(k as int), cs),
            decreases g.memos.len() - k,
        {
            let m = &g.memos[k];
            let ghost ms = done + g.memos@.take(k + 1);
            proof {
                assert(ms.drop_last() =~= done + g.memos@.take(k as int));
                assert(ms.last() == *m);
                assert(cs[j as int] == contents@[j as int]@);
            }
            if j > 0 {
                out.push('\n');
            }
            push_verbose_section(&mut out, m, contents[j].as_str());
            proof {
                assert(out@ =~= verbose_sections(ms, cs));
            }
            j = j + 1;
            k = k + 1;
        }
        proof {
            assert(g.memos@.take(k as int) =~= g.memos@);
        }
        i = i + 1;
    }
    proof {
        assert(gv.take(groups.len() as int) =~= gv);
    }
    text::string_from_chars(out.as_slice())
}

/// `d` is what the optional date argument `s` gives.
pub open spec fn parsed(s: Option<&str>, d: Option<Date>) -> bool {
    match s {
        None => d is None,
        Some(x) => d matches Some(dd) && date::parse_ymd_of(x@) == Some((dd.y(), dd.m(), dd.d())),
    }
}

/// The optional date argument is text that is no date.
pub open spec fn bad_date(s: Option<&str>) -> bool {
    s matches Some(x) && date::parse_ymd_of(x@) is None
}

/// The date bounds of a listing: `after` and `before` parsed
/// (`InvalidDate` for the first that is text but no `YYYY-MM-DD` date), and a
/// range whose start is after its end refused. Checked before the memo tree
/// is walked.
pub fn bounds(after: Option<&str>, before: Option<&str>) -> (r: Result<
    (Option<Date>, Option<Date>),
    StoreError,
>)
    ensures
        bad_date(after) ==> (r matches Err(e) && (e matches StoreError::Stpl(StplError::InvalidDate(q))
            && q@ == after.unwrap()@)),
        !bad_date(after) && bad_date(before) ==> (r matches Err(e) && (e matches StoreError::Stpl(
            StplError::InvalidDate(q),
        ) && q@ == before.unwrap()@)),
        !bad_date(after) && !bad_date(before) ==> exists|a: Option<Date>, b: Option<Date>|
            {
                &&& parsed(after, a)
                &&& parsed(before, b)
                &&& if a matches Some(x) && b matches Some(y) && !x.le(y) {
                    r matches Err(e) && (e matches StoreError::Message(m) && m@ == util::range_message(
                        a.unwrap(),
                        b.unwrap(),
                    ))
                } else {
                    r == Ok::<(Option<Date>, Option<Date>), StoreError>((a, b))
                }
            },
{
    let a = match util::parse_date(after) {
        Ok(d) => d,
        Err(e) => return Err(StoreError::Stpl(e)),
    };
    let b = match util::parse_date(before) {
        Ok(d) => d,
        Err(e) => return Err(StoreError::Stpl(e)),
    };
    assert(parsed(after, a) && parsed(before, b));
    match util::check_range(a, b) {
        Ok(()) => {},
        Err(m) => return Err(StoreError::Message(m)),
    }
    Ok((a, b))
}

/// The overview's listing: parse the date bounds (`InvalidDate` for text
/// that is no `YYYY-MM-DD` date), refuse a range whose start is after its end,
/// keep the memos within the range that carry one of `tags` (when any are
/// given), and group them by folder.
pub fn run(memos: Vec<Memo>, after: Option<&str>, before: Option<&str>, tags: &[String]) -> (r: Result<
    Vec<Group>,
    StoreError,
>)
    ensures
        bad_date(after) ==> (r matches Err(e) && (e matches StoreError::Stpl(StplError::InvalidDate(q))
            && q@ == after.unwrap()@)),
        !bad_date(after) && bad_date(before) ==> (r matches Err(e) && (e matches StoreError::Stpl(
            StplError::InvalidDate(q),
        ) && q@ == before.unwrap()@)),
        !bad_date(after) && !bad_date(before) ==> exists|a: Option<Date>, b: Option<Date>|
            {
                &&& parsed(after, a)
                &&& parsed(before, b)
                &&& if a matches Some(x) && b matches Some(y) && !x.le(y) {
                    r matches Err(e) && (e matches StoreError::Message(m) && m@ == util::range_message(
                        a.unwrap(),
                        b.unwrap(),
                    ))
                } else {
                    r matches Ok(gs) && {
                        let kept = memos@.filter(|m: Memo| util::selected(m, a, b, tags.deep_view()));
                        &&& is_grouping(gs@)
                        &&& exists|p: Seq<usize>|
                            order::covers(p, kept.len() as int) && order::ordered(p, listing(kept))
                                && members(gs@) == at_positions(kept, p)
                    }
                }
            },
{
    let (a, b) = match bounds(after, before) {
        Ok(ab) => ab,
        Err(e) => return Err(e),
    };
    let kept = util::select(memos, a, b, tags);
    Ok(group(kept))
}

} // verus!
