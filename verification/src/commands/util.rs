//! What several commands share: the style of the invocation, the listing of
//! ambiguous matches, and the date and tag filters of `overview` and `search`.
use vstd::prelude::*;
use crate::config::Config;
use crate::date::{self, Date};
use crate::error::StplError;
use crate::memo::Memo;
use crate::output::{self, Style};
use crate::text;

verus! {

/// The configuration and the output style derived from it: the common
/// preamble of nearly every command. `is_tty` tells whether stdout is a
/// terminal and `no_color` whether `NO_COLOR` is set to something non-empty.
pub fn config_and_style(config: Config, is_tty: bool, no_color: bool) -> (r: (Config, Style))
    ensures
        r.0 == config,
        r.1.color == (!config.disable_color && !no_color && is_tty),
        r.1.emoji == !config.disable_emoji,
        r.1.hyperlinks == is_tty,
{
    let style = Style::from_config(&config, is_tty, no_color);
    (config, style)
}

/// The text of a date, `YYYY-MM-DD`.
pub open spec fn date_text(d: Date) -> Seq<char> {
    date::ymd_text(d.y() as int, d.m() as int, d.d() as int)
}

/// The lines that list the candidates of an ambiguous query: a heading,
/// then each match as an indented memo line.
pub open spec fn ambiguity_lines(style: Style, query: Seq<char>, matches: Seq<Memo>) -> Seq<Seq<char>> {
    seq!["multiple memos match '"@ + query + "' \u{2014} be more specific:"@] + Seq::new(
        matches.len(),
        |i: int| "  "@ + output::memo_line_text(style, matches[i].title@, matches[i].path@),
    )
}

/// The lines printed to stderr when `query` matched several memos.
pub fn ambiguity_report(style: &Style, query: &str, matches: &[Memo]) -> (r: Vec<String>)
    ensures
        r.deep_view() == ambiguity_lines(*style, query@, matches@),
{
    let mut head: Vec<char> = Vec::new();
    text::push_str(&mut head, "multiple memos match '");
    text::push_str(&mut head, query);
    text::push_str(&mut head, "' \u{2014} be more specific:");
    let mut out: Vec<String> = Vec::new();
    out.push(text::string_from_chars(head.as_slice()));
    let mut i: usize = 0;
    while i < matches.len()
        invariant
            i <= matches.len(),
            out.len() == i + 1,
            out@[0]@ == "multiple memos match '"@ + query@ + "' \u{2014} be more specific:"@,
            forall|k: int|
                0 <= k < i ==> #[trigger] out@[k + 1]@ == "  "@ + output::memo_line_text(
                    *style,
                    matches@[k].title@,
                    matches@[k].path@,
                ),
        decreases matches.len() - i,
    {
        let line = style.memo_line(&matches[i]);
        let mut v: Vec<char> = Vec::new();
        text::push_str(&mut v, "  ");
        text::push_str(&mut v, line.as_str());
        out.push(text::string_from_chars(v.as_slice()));
        i = i + 1;
    }
    proof {
        let want = ambiguity_lines(*style, query@, matches@);
        assert forall|k: int| 0 <= k < out.len() implies out.deep_view()[k] == want[k] by {
            if k > 0 {
                assert(out@[(k - 1) + 1]@ == want[k]);
            }
        }
        assert(out.deep_view() =~= want);
    }
    out
}

/// Parse an optional strict `YYYY-MM-DD` date; text that is no such date is
/// `InvalidDate`.
pub fn parse_date(s: Option<&str>) -> (r: Result<Option<Date>, StplError>)
    ensures
        match s {
            None => r matches Ok(None),
            Some(x) => match date::parse_ymd_of(x@) {
                None => r matches Err(e) && (e matches StplError::InvalidDate(q) && q@ == x@),
                Some(t) => r matches Ok(Some(d)) && t == (d.y(), d.m(), d.d()),
            },
        },
{
    match s {
        None => Ok(None),
        Some(x) => match Date::parse_ymd(x) {
            Some(d) => Ok(Some(d)),
            None => Err(StplError::InvalidDate(x.to_string())),
        },
    }
}

/// The message for an empty date range.
pub open spec fn range_message(a: Date, b: Date) -> Seq<char> {
    "invalid range: after "@ + date_text(a) + " is later than before "@ + date_text(b)
}

/// A date range whose start is later than its end is refused.
pub fn check_range(after: Option<Date>, before: Option<Date>) -> (r: Result<(), String>)
    ensures
        match (after, before) {
            (Some(a), Some(b)) => if a.le(b) {
                r is Ok
            } else {
                r matches Err(m) && m@ == range_message(a, b)
            },
            _ => r is Ok,
        },
{
    match (after, before) {
        (Some(a), Some(b)) => {
            if a.on_or_before(&b) {
                Ok(())
            } else {
                let mut v: Vec<char> = Vec::new();
                text::push_str(&mut v, "invalid range: after ");
                text::push_str(&mut v, a.to_ymd_string().as_str());
                text::push_str(&mut v, " is later than before ");
                text::push_str(&mut v, b.to_ymd_string().as_str());
                Err(text::string_from_chars(v.as_slice()))
            }
        },
        _ => Ok(()),
    }
}

/// The code of `c`, lowered if it is an ASCII capital.
pub open spec fn ascii_fold(c: char) -> int {
    if 'A' <= c <= 'Z' {
        (c as int) + 32
    } else {
        c as int
    }
}

/// `str::eq_ignore_ascii_case`: the texts are equal once ASCII capitals are
/// lowered.
pub open spec fn same_ignoring_ascii_case(a: Seq<char>, b: Seq<char>) -> bool {
    a.len() == b.len() && forall|i: int| 0 <= i < a.len() ==> ascii_fold(#[trigger] a[i]) == ascii_fold(b[i])
}

fn lower_ascii(c: char) -> (r: u32)
    ensures
        r == ascii_fold(c),
{
    if 'A' <= c && c <= 'Z' {
        (c as u32) + 32
    } else {
        c as u32
    }
}

/// Whether `a` and `b` are equal once ASCII capitals are lowered.
pub fn eq_ignore_ascii_case(a: &str, b: &str) -> (r: bool)
    ensures
        r == same_ignoring_ascii_case(a@, b@),
{
    let x = text::chars_of(a);
    let y = text::chars_of(b);
    if x.len() != y.len() {
        return false;
    }
    let mut i: usize = 0;
    while i < x.len()
        invariant
            i <= x.len() == y.len(),
            x@ == a@,
            y@ == b@,
            forall|k: int| 0 <= k < i ==> ascii_fold(#[trigger] x@[k]) == ascii_fold(y@[k]),
        decreases x.len() - i,
    {
        if lower_ascii(x[i]) != lower_ascii(y[i]) {
            return false;
        }
        i = i + 1;
    }
    true
}

/// The memo's date lies within the optional bounds (both inclusive).
pub open spec fn in_range(d: Date, after: Option<Date>, before: Option<Date>) -> bool {
    &&& (after matches Some(a) ==> a.le(d))
    &&& (before matches Some(b) ==> d.le(b))
}

/// One of the memo's tags equals one of the wanted tags, ASCII case aside.
pub open spec fn has_any_tag(mine: Seq<Seq<char>>, wanted: Seq<Seq<char>>) -> bool {
    exists|i: int, j: int|
        0 <= i < mine.len() && 0 <= j < wanted.len() && same_ignoring_ascii_case(
            #[trigger] wanted[j],
            #[trigger] mine[i],
        )
}

/// The memo passes the date range and, when tags are wanted, carries at
/// least one of them.
pub open spec fn selected(m: Memo, after: Option<Date>, before: Option<Date>, wanted: Seq<Seq<char>>) -> bool {
    &&& in_range(m.date, after, before)
    &&& (wanted.len() > 0 ==> has_any_tag(m.tags.deep_view(), wanted))
}

/// Whether one of `mine` equals one of `wanted`, ASCII case aside.
fn any_tag(mine: &Vec<String>, wanted: &[String]) -> (r: bool)
    ensures
        r == has_any_tag(mine.deep_view(), wanted.deep_view()),
{
    let ghost mv = mine.deep_view();
    let ghost wv = wanted.deep_view();
    let mut i: usize = 0;
    while i < mine.len()
        invariant
            i <= mine.len(),
            mv == mine.deep_view(),
            wv == wanted.deep_view(),
            forall|a: int, b: int|
                0 <= a < i && 0 <= b < wv.len() ==> !same_ignoring_ascii_case(#[trigger] wv[b], #[trigger] mv[a]),
        decreases mine.len() - i,
    {
        let mut j: usize = 0;
        while j < wanted.len()
            invariant
                i < mine.len(),
                j <= wanted.len(),
                mv == mine.deep_view(),
                wv == wanted.deep_view(),
                forall|a: int, b: int|
                    0 <= a < i && 0 <= b < wv.len() ==> !same_ignoring_ascii_case(#[trigger] wv[b], #[trigger] mv[a]),
                forall|b: int| 0 <= b < j ==> !same_ignoring_ascii_case(#[trigger] wv[b], mv[i as int]),
            decreases wanted.len() - j,
        {
            if eq_ignore_ascii_case(wanted[j].as_str(), mine[i].as_str()) {
                assert(same_ignoring_ascii_case(wv[j as int], mv[i as int]));
                return true;
            }
            j = j + 1;
        }
        i = i + 1;
    }
    false
}

/// Whether the memo passes the filters.
pub fn is_selected(m: &Memo, after: Option<Date>, before: Option<Date>, tags: &[String]) -> (r: bool)
    ensures
        r == selected(*m, after, before, tags.deep_view()),
{
    let in_after = match after {
        Some(a) => a.on_or_before(&m.date),
        None => true,
    };
    let in_before = match before {
        Some(b) => m.date.on_or_before(&b),
        None => true,
    };
    if !(in_after && in_before) {
        return false;
    }
    if tags.len() == 0 {
        return true;
    }
    any_tag(&m.tags, tags)
}

/// The memos that pass the date range `after..=before` and, when `tags` is
/// not empty, carry at least one of the tags (ASCII case aside), in order.
pub fn select(memos: Vec<Memo>, after: Option<Date>, before: Option<Date>, tags: &[String]) -> (r: Vec<Memo>)
    ensures
        r@ == memos@.filter(|m: Memo| selected(m, after, before, tags.deep_view())),
{
    let ghost pred = |m: Memo| selected(m, after, before, tags.deep_view());
    let ghost all = memos@;
    let mut out: Vec<Memo> = Vec::new();
    for m in it: memos
        invariant
            all == it.seq(),
            pred == (|m: Memo| selected(m, after, before, tags.deep_view())),
            out@ == all.take(it.index() as int).filter(pred),
    {
        let ghost k = it.index();
        proof {
            assert(all.take(k + 1).drop_last() =~= all.take(k as int));
            reveal_with_fuel(Seq::filter, 1);
        }
        if is_selected(&m, after, before, tags) {
            out.push(m);
        }
    }
    proof {
        assert(all.take(all.len() as int) =~= all);
    }
    out
}

} // verus!
