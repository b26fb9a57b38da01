//! Properties that relate several functions of the library, proved over the
//! same spec functions that the functions' own contracts use.
use vstd::prelude::*;
use crate::commands::overview;
use crate::commands::search;
use crate::commands::util;
use crate::commands::sync::{self, SyncAction, SyncEvent, SyncState};
use crate::config;
use crate::order;
use crate::date::{self, Date};
use crate::memo;
use crate::store;
use crate::text;
use crate::unicode;

verus! {

/// A tag in the form that `parse_tags` produces and `write_tags` can write
/// back: nonempty, unchanged by the parser's cleaning (no surrounding
/// whitespace or quotes), with no comma and no newline.
pub open spec fn is_clean_tag(t: Seq<char>) -> bool {
    &&& t.len() > 0
    &&& memo::clean_tag(t) == t
    &&& !t.contains(',')
    &&& !t.contains('\n')
}

/// The pieces that splitting `join(ts, ", ")` at commas gives: the first tag,
/// then each further tag behind the space that followed its comma.
pub open spec fn spaced(ts: Seq<Seq<char>>) -> Seq<Seq<char>>
    decreases ts.len(),
{
    if ts.len() == 0 {
        seq![seq![]]
    } else if ts.len() == 1 {
        seq![ts[0]]
    } else {
        spaced(ts.drop_last()).push(seq![' '] + ts.last())
    }
}

proof fn lemma_split_join(ts: Seq<Seq<char>>)
    requires
        forall|i: int| 0 <= i < ts.len() ==> !(#[trigger] ts[i]).contains(','),
    ensures
        text::split_on(text::join(ts, seq![',', ' ']), ',') == spaced(ts),
    decreases ts.len(),
{
    if ts.len() == 0 {
        text::lemma_find_char_is(seq![], ',', 0);
    } else if ts.len() == 1 {
        text::lemma_split_none(ts[0], ',');
    } else {
        let d = ts.drop_last();
        assert forall|i: int| 0 <= i < d.len() implies !(#[trigger] d[i]).contains(',') by {
            assert(d[i] == ts[i]);
        }
        lemma_split_join(d);
        let last = seq![' '] + ts.last();
        assert(!last.contains(',')) by {
            assert(!ts[ts.len() - 1].contains(','));
            if last.contains(',') {
                let j = choose|j: int| 0 <= j < last.len() && last[j] == ',';
                assert(ts.last()[j - 1] == last[j]);
            }
        }
        text::lemma_split_none(last, ',');
        assert(text::join(ts, seq![',', ' ']) =~= text::join(d, seq![',', ' ']) + seq![','] + last);
        text::lemma_split_concat(text::join(d, seq![',', ' ']), last, ',');
    }
}

proof fn lemma_keep_spaced(ts: Seq<Seq<char>>)
    requires
        forall|i: int| 0 <= i < ts.len() ==> is_clean_tag(#[trigger] ts[i]),
    ensures
        memo::keep_tags(spaced(ts)) == ts,
    decreases ts.len(),
{
    if ts.len() == 0 {
        let p: Seq<Seq<char>> = seq![seq![]];
        assert(p.drop_last() =~= Seq::<Seq<char>>::empty());
        assert(p.last() == Seq::<char>::empty());
        assert(memo::clean_tag(seq![]) =~= Seq::<char>::empty()) by {
            assert(text::trim(seq![]) =~= Seq::<char>::empty());
            assert(text::trim_by(seq![], text::CharClass::Quote) =~= Seq::<char>::empty());
        }
        assert(memo::keep_tags(p) == memo::keep_tags(p.drop_last()));
        assert(memo::keep_tags(Seq::<Seq<char>>::empty()) == Seq::<Seq<char>>::empty());
        assert(ts =~= Seq::<Seq<char>>::empty());
    } else if ts.len() == 1 {
        let p = seq![ts[0]];
        assert(p.drop_last() =~= Seq::<Seq<char>>::empty());
        assert(p.last() == ts[0]);
        assert(is_clean_tag(ts[0]));
        assert(memo::keep_tags(Seq::<Seq<char>>::empty()) == Seq::<Seq<char>>::empty());
        assert(memo::keep_tags(p) == seq![ts[0]]);
        assert(ts =~= seq![ts[0]]);
    } else {
        let d = ts.drop_last();
        assert forall|i: int| 0 <= i < d.len() implies is_clean_tag(#[trigger] d[i]) by {
            assert(d[i] == ts[i]);
        }
        lemma_keep_spaced(d);
        let last = ts.last();
        assert(is_clean_tag(ts[ts.len() - 1]));
        text::lemma_trim_space_prefix(last);
        assert(memo::clean_tag(seq![' '] + last) == last);
        let p = spaced(d).push(seq![' '] + last);
        assert(spaced(ts) == p);
        assert(p.drop_last() =~= spaced(d));
        assert(p.last() == seq![' '] + last);
        assert(memo::keep_tags(p) == d.push(last));
        assert(ts =~= d.push(last));
    }
}

proof fn lemma_join_without(ts: Seq<Seq<char>>, sep: Seq<char>, c: char)
    requires
        forall|i: int| 0 <= i < ts.len() ==> !(#[trigger] ts[i]).contains(c),
        !sep.contains(c),
    ensures
        !text::join(ts, sep).contains(c),
    decreases ts.len(),
{
    if ts.len() == 1 {
        assert(!ts[0].contains(c));
    } else if ts.len() > 1 {
        let d = ts.drop_last();
        assert forall|i: int| 0 <= i < d.len() implies !(#[trigger] d[i]).contains(c) by {
            assert(d[i] == ts[i]);
        }
        lemma_join_without(d, sep, c);
        let j = text::join(d, sep);
        let l = ts.last();
        assert(!l.contains(c)) by {
            assert(!ts[ts.len() - 1].contains(c));
        }
        let all = j + sep + l;
        assert(text::join(ts, sep) == all);
        if all.contains(c) {
            let k = choose|k: int| 0 <= k < all.len() && all[k] == c;
            if k < j.len() {
                assert(j[k] == all[k]);
            } else if k < j.len() + sep.len() {
                assert(sep[k - j.len()] == all[k]);
            } else {
                assert(l[k - j.len() - sep.len()] == all[k]);
            }
        }
    }
}

/// For tags without a line break, the written tags line is one full line,
/// which trims to the `tags:` line itself and is no fence.
proof fn lemma_tags_line_shape(ts: Seq<Seq<char>>)
    requires
        forall|i: int| 0 <= i < ts.len() ==> !(#[trigger] ts[i]).contains('\n'),
    ensures
        text::one_line(memo::tags_line(ts).push('\n')),
        text::trim(memo::tags_line(ts).push('\n')) == memo::tags_line(ts),
        memo::is_tags_line(memo::tags_line(ts).push('\n')),
        !memo::is_fence(memo::tags_line(ts).push('\n')),
{
    let sep = seq![',', ' '];
    let j = text::join(ts, sep);
    let tl = memo::tags_line(ts);
    let l = tl.push('\n');
    let k = text::CharClass::White;
    assert(!sep.contains('\n')) by {
        if sep.contains('\n') {
            let m = choose|m: int| 0 <= m < sep.len() && sep[m] == '\n';
        }
    }
    lemma_join_without(ts, sep, '\n');
    assert(text::one_line(l)) by {
        assert forall|m: int| 0 <= m < l.len() - 1 implies l[m] != '\n' by {
            if 7 <= m < 7 + j.len() {
                assert(l[m] == j[m - 7]);
            }
        }
    }
    assert(text::trim(l) == tl) by {
        assert(l[l.len() - 1] == '\n');
        assert(l[l.len() - 2] == ']');
        text::lemma_trail_run_is(l, k, 1);
        let e = text::trim_end_by(l, k);
        assert(e =~= tl);
        assert(e[0] == 't');
        text::lemma_lead_run_is(e, k, 0);
        assert(e.skip(0) =~= e);
    }
    assert(text::starts_with(tl, memo::tags_key())) by {
        assert(tl.take(5) =~= memo::tags_key());
    }
    assert(tl != memo::fence_text()) by {
        assert(tl[0] == 't');
    }
}

/// The written tags line is a full line, a `tags:` line and no fence, and
/// lists exactly the tags it was written from.
proof fn lemma_tags_line_parses(ts: Seq<Seq<char>>)
    requires
        forall|i: int| 0 <= i < ts.len() ==> is_clean_tag(#[trigger] ts[i]),
    ensures
        text::one_line(memo::tags_line(ts).push('\n')),
        memo::is_tags_line(memo::tags_line(ts).push('\n')),
        !memo::is_fence(memo::tags_line(ts).push('\n')),
        memo::tags_in_line(memo::tags_line(ts).push('\n')) == ts,
{
    let sep = seq![',', ' '];
    let j = text::join(ts, sep);
    let tl = memo::tags_line(ts);
    let k = text::CharClass::White;
    assert forall|i: int| 0 <= i < ts.len() implies !(#[trigger] ts[i]).contains('\n') by {
        assert(is_clean_tag(ts[i]));
    }
    lemma_tags_line_shape(ts);
    // The value after `tags:` is the bracketed list.
    let w = tl.skip(5);
    let v = seq!['['] + j + seq![']'];
    assert(text::trim(w) == v) by {
        assert(w[w.len() - 1] == ']');
        text::lemma_trail_run_is(w, k, 0);
        assert(text::trim_end_by(w, k) =~= w);
        assert(w[0] == ' ');
        assert(w[1] == '[');
        text::lemma_lead_run_is(w, k, 1);
        assert(w.skip(1) =~= v);
    }
    assert(v.subrange(1, v.len() - 1) =~= j);
    assert(v[0] == '[');
    assert(v.last() == ']');
    assert forall|i: int| 0 <= i < ts.len() implies !(#[trigger] ts[i]).contains(',') by {
        assert(is_clean_tag(ts[i]));
    }
    lemma_split_join(ts);
    lemma_keep_spaced(ts);
}

/// `"---\n"` is a full line and a fence.
proof fn lemma_open_is_fence()
    ensures
        text::one_line(memo::fm_open()),
        memo::is_fence(memo::fm_open()),
{
    let l = memo::fm_open();
    let k = text::CharClass::White;
    let t = memo::fence_text();
    assert(text::one_line(l)) by {
        assert forall|j: int| 0 <= j < l.len() - 1 implies l[j] != '\n' by {}
    }
    assert(text::trim(l) == t) by {
        text::lemma_trail_run_is(l, k, 1);
        assert(text::trim_end_by(l, k) =~= t);
        text::lemma_lead_run_is(t, k, 0);
        assert(t.skip(0) =~= t);
    }
}

/// A line at index `m` that passes `p` bounds the first one that does.
proof fn lemma_first_at_most(ls: Seq<Seq<char>>, p: spec_fn(Seq<char>) -> bool, m: int)
    requires
        0 <= m < ls.len(),
        p(ls[m]),
    ensures
        text::first_from(ls, p, 0) <= m,
{
    text::lemma_first_from(ls, p, 0);
}

/// For content with a frontmatter, the lines after the opening fence that
/// `write_tags` gives: those of `c`, with the tags line at `k` in place of
/// the lines `k..k2` (the old `tags:` line, or none before the fence `f`).
#[verifier::spinoff_prover]
proof fn lemma_written_lines(c: Seq<char>, tags: Seq<Seq<char>>)
    requires
        memo::has_frontmatter(c),
        text::one_line(memo::tags_line(tags).push('\n')),
    ensures
        ({
            let tl = memo::tags_line(tags).push('\n');
            let ls = text::lines_incl(c.skip(4));
            let f = text::first_from(ls, memo::line_pred(memo::LineKind::Fence), 0);
            let t = text::first_from(ls, memo::line_pred(memo::LineKind::Tags), 0);
            let k = if t < f {
                t
            } else {
                f
            };
            let k2 = if t < f {
                t + 1
            } else {
                f
            };
            let out = memo::write_tags_spec(c, tags);
            &&& text::starts_with(out, memo::fm_open())
            &&& 0 <= k <= k2 <= f < ls.len()
            &&& text::lines_incl(out.skip(4)) == ls.take(k) + seq![tl] + ls.skip(k2)
        }),
{
    let tl = memo::tags_line(tags).push('\n');
    let out = memo::write_tags_spec(c, tags);
    let ls = text::lines_incl(c.skip(4));
    let f = text::first_from(ls, memo::line_pred(memo::LineKind::Fence), 0);
    let t = text::first_from(ls, memo::line_pred(memo::LineKind::Tags), 0);
    text::lemma_first_from(ls, memo::line_pred(memo::LineKind::Fence), 0);
    text::lemma_first_from(ls, memo::line_pred(memo::LineKind::Tags), 0);
    text::lemma_lines_shape(c.skip(4));
    let k = if t < f {
        t
    } else {
        f
    };
    let k2 = if t < f {
        t + 1
    } else {
        f
    };
    let spliced = ls.take(k) + seq![tl] + ls.skip(k2);
    if t < f {
        assert(ls.update(t, tl) =~= spliced);
    } else {
        assert(ls.insert(f, tl) =~= spliced);
    }
    assert(out == memo::fm_open() + spliced.flatten());
    assert(out.take(4) =~= memo::fm_open());
    assert(out.skip(4) =~= spliced.flatten());
    let post = ls.skip(k2).flatten();
    text::lemma_flatten_splice(ls, k, k2, tl);
    let pre = ls.take(k);
    assert forall|i: int| 0 <= i < pre.len() implies text::one_line(#[trigger] pre[i]) by {
        assert(pre[i] == ls[i]);
    }
    assert(spliced.flatten() =~= pre.flatten() + (tl + post));
    text::lemma_lines_prefix(pre, tl + post);
    text::lemma_lines_first(tl, post);
    text::lemma_lines_of_tail(c.skip(4), k2);
    assert(text::lines_incl(out.skip(4)) =~= spliced);
}

/// Tags written into a memo are the tags read back from it: for tags in the
/// form the parser produces, `parse_tags(write_tags(content, tags))` is
/// `tags`, for every content.
pub proof fn law_written_tags_read_back(c: Seq<char>, tags: Seq<Seq<char>>)
    requires
        forall|i: int| 0 <= i < tags.len() ==> is_clean_tag(#[trigger] tags[i]),
    ensures
        memo::parse_tags_spec(memo::write_tags_spec(c, tags)) == tags,
{
    let tl = memo::tags_line(tags).push('\n');
    let out = memo::write_tags_spec(c, tags);
    let pf = memo::line_pred(memo::LineKind::FenceOrTags);
    let pfence = memo::line_pred(memo::LineKind::Fence);
    lemma_tags_line_parses(tags);
    lemma_open_is_fence();
    if !memo::has_frontmatter(c) {
        let rest2 = seq!['\n'] + c;
        let rest = memo::fm_open() + rest2;
        assert(out =~= memo::fm_open() + tl + rest);
        assert(out.take(4) =~= memo::fm_open());
        assert(out.skip(4) =~= tl + rest);
        text::lemma_lines_first(memo::fm_open(), rest2);
        text::lemma_lines_first(tl, rest);
        let ls2 = text::lines_incl(out.skip(4));
        assert(ls2[0] == tl);
        assert(ls2[1] == memo::fm_open());
        lemma_first_at_most(ls2, pfence, 1);
        assert(memo::has_frontmatter(out));
        text::lemma_first_from_is(ls2, pf, 0, 0);
    } else {
        let ls = text::lines_incl(c.skip(4));
        let f = text::first_from(ls, pfence, 0);
        let t = text::first_from(ls, memo::line_pred(memo::LineKind::Tags), 0);
        text::lemma_first_from(ls, pfence, 0);
        text::lemma_first_from(ls, memo::line_pred(memo::LineKind::Tags), 0);
        lemma_written_lines(c, tags);
        let k = if t < f {
            t
        } else {
            f
        };
        let k2 = if t < f {
            t + 1
        } else {
            f
        };
        let ls2 = text::lines_incl(out.skip(4));
        // The closing fence is still there, behind the written line.
        let m = f + 1 + k - k2;
        assert(ls2[m] == ls[f]);
        lemma_first_at_most(ls2, pfence, m);
        assert(memo::has_frontmatter(out));
        assert forall|j: int| 0 <= j < k implies !pf(#[trigger] ls2[j]) by {
            assert(ls2[j] == ls[j]);
        }
        assert(ls2[k] == tl);
        text::lemma_first_from_is(ls2, pf, 0, k);
    }
}

/// A newline in front does not change what trimming leading newlines gives.
proof fn lemma_trim_newline_front(c: Seq<char>)
    ensures
        text::trim_start_by(seq!['\n'] + c, text::CharClass::Newline) == text::trim_start_by(
            c,
            text::CharClass::Newline,
        ),
{
    let s = seq!['\n'] + c;
    let k = text::CharClass::Newline;
    assert(s.drop_first() =~= c);
    assert(text::lead_run(s, k) == 1 + text::lead_run(c, k));
    text::lemma_lead_run_bound(c, k);
    assert(s.skip((1 + text::lead_run(c, k)) as int) =~= c.skip(text::lead_run(c, k) as int));
}

/// Trimming leading newlines twice trims no more than once.
proof fn lemma_trim_newline_twice(x: Seq<char>)
    ensures
        text::trim_start_by(text::trim_start_by(x, text::CharClass::Newline), text::CharClass::Newline)
            == text::trim_start_by(x, text::CharClass::Newline),
{
    let k = text::CharClass::Newline;
    text::lemma_lead_run_bound(x, k);
    let y = text::trim_start_by(x, k);
    if y.len() > 0 {
        assert(y[0] == x[text::lead_run(x, k) as int]);
    }
    text::lemma_lead_run_is(y, k, 0);
    assert(y.skip(0) =~= y);
}

/// Writing tags changes only the frontmatter: the body that
/// `strip_frontmatter` gives afterwards is the body it gave before, with its
/// leading blank lines trimmed, for every content and every tags without a
/// line break.
pub proof fn law_write_tags_keeps_body(c: Seq<char>, tags: Seq<Seq<char>>)
    requires
        forall|i: int| 0 <= i < tags.len() ==> !(#[trigger] tags[i]).contains('\n'),
    ensures
        memo::strip_frontmatter_spec(memo::write_tags_spec(c, tags)) == text::trim_start_by(
            memo::strip_frontmatter_spec(c),
            text::CharClass::Newline,
        ),
{
    let tl = memo::tags_line(tags).push('\n');
    let out = memo::write_tags_spec(c, tags);
    let pfence = memo::line_pred(memo::LineKind::Fence);
    let nl = text::CharClass::Newline;
    lemma_tags_line_shape(tags);
    lemma_open_is_fence();
    if !memo::has_frontmatter(c) {
        let rest2 = seq!['\n'] + c;
        let rest = memo::fm_open() + rest2;
        assert(out =~= memo::fm_open() + tl + rest);
        assert(out.take(4) =~= memo::fm_open());
        assert(out.skip(4) =~= tl + rest);
        text::lemma_lines_first(memo::fm_open(), rest2);
        text::lemma_lines_first(tl, rest);
        let ls2 = text::lines_incl(out.skip(4));
        assert(ls2[0] == tl);
        assert(ls2[1] == memo::fm_open());
        assert forall|j: int| 0 <= j < 1 implies !pfence(#[trigger] ls2[j]) by {}
        text::lemma_first_from_is(ls2, pfence, 0, 1);
        assert(ls2.skip(2) =~= text::lines_incl(rest2));
        text::lemma_lines_flatten(rest2);
        lemma_trim_newline_front(c);
        assert(memo::strip_frontmatter_spec(c) == c);
    } else {
        let ls = text::lines_incl(c.skip(4));
        let f = text::first_from(ls, pfence, 0);
        let t = text::first_from(ls, memo::line_pred(memo::LineKind::Tags), 0);
        text::lemma_first_from(ls, pfence, 0);
        lemma_written_lines(c, tags);
        let k = if t < f {
            t
        } else {
            f
        };
        let k2 = if t < f {
            t + 1
        } else {
            f
        };
        let ls2 = text::lines_incl(out.skip(4));
        // The first fence of the result is the old closing fence.
        let m = f + 1 + k - k2;
        assert(ls2[m] == ls[f]);
        assert forall|j: int| 0 <= j < m implies !pfence(#[trigger] ls2[j]) by {
            if j < k {
                assert(ls2[j] == ls[j]);
            } else if j > k {
                assert(ls2[j] == ls[j - k - 1 + k2]);
            }
        }
        text::lemma_first_from_is(ls2, pfence, 0, m);
        assert(ls2.skip(m + 1) =~= ls.skip(f + 1));
        lemma_trim_newline_twice(ls.skip(f + 1).flatten());
    }
}

/// A text opens with `"---\n"` exactly when its first line is `"---\n"`.
proof fn lemma_opens_with_fence_line(c: Seq<char>)
    ensures
        text::starts_with(c, memo::fm_open()) == (text::lines_incl(c).len() > 0 && text::lines_incl(
            c,
        )[0] == memo::fm_open()),
{
    lemma_open_is_fence();
    if text::starts_with(c, memo::fm_open()) {
        assert(c =~= memo::fm_open() + c.skip(4));
        text::lemma_lines_first(memo::fm_open(), c.skip(4));
    } else if c.len() > 0 {
        text::lemma_first_line(c);
    }
}

/// No line break in `a + b` when there is none in either.
proof fn lemma_concat_no_newline(a: Seq<char>, b: Seq<char>)
    requires
        !a.contains('\n'),
        !b.contains('\n'),
    ensures
        !(a + b).contains('\n'),
{
    let ab = a + b;
    if ab.contains('\n') {
        let j = choose|j: int| 0 <= j < ab.len() && ab[j] == '\n';
        if j < a.len() {
            assert(a[j] == ab[j]);
        } else {
            assert(b[j - a.len()] == ab[j]);
        }
    }
}

/// A line rewritten as `mark` and a title stays a piece with the line's
/// ending, starts with `mark`, and rewriting it again is rewriting the
/// original line.
proof fn lemma_retitled(l: Seq<char>, mark: Seq<char>, t1: Seq<char>, t2: Seq<char>)
    requires
        text::piece(l),
        mark.len() > 0,
        !mark.contains('\n'),
        !t1.contains('\n'),
    ensures
        text::piece(memo::retitled(l, mark, t1)),
        text::one_line(memo::retitled(l, mark, t1)) == text::one_line(l),
        memo::retitled(memo::retitled(l, mark, t1), mark, t2) == memo::retitled(l, mark, t2),
        memo::retitled(l, mark, t1).len() >= mark.len(),
        memo::retitled(l, mark, t1).take(mark.len() as int) == mark,
{
    let r = memo::retitled(l, mark, t1);
    let mt = mark + t1;
    lemma_concat_no_newline(mark, t1);
    if l.last() == '\n' {
        assert(r =~= mt.push('\n'));
        assert forall|j: int| 0 <= j < r.len() - 1 implies r[j] != '\n' by {
            assert(r[j] == mt[j]);
        }
        assert(r.last() == '\n');
    } else {
        assert(r =~= mt);
        assert forall|j: int| 0 <= j < r.len() - 1 implies r[j] != '\n' by {
            assert(r[j] == mt[j]);
        }
        assert(r.last() != '\n') by {
            assert(r.last() == mt[mt.len() - 1]);
        }
    }
    assert(r.take(mark.len() as int) =~= mark) by {
        assert forall|j: int| 0 <= j < mark.len() implies r[j] == mark[j] by {
            assert(mt[j] == mark[j]);
        }
    }
}

/// The marks that `rewrite_title` writes hold no line break.
proof fn lemma_marks()
    ensures
        !memo::title_mark().contains('\n'),
        !memo::heading_mark().contains('\n'),
{
    assert(!memo::title_mark().contains('\n')) by {
        if memo::title_mark().contains('\n') {
            let j = choose|j: int| 0 <= j < 7 && memo::title_mark()[j] == '\n';
        }
    }
    assert(!memo::heading_mark().contains('\n')) by {
        if memo::heading_mark().contains('\n') {
            let j = choose|j: int| 0 <= j < 2 && memo::heading_mark()[j] == '\n';
        }
    }
}

/// A line rewritten as a `title:` line is one, and is no fence; one rewritten
/// as a heading is a heading.
proof fn lemma_retitled_kinds(l: Seq<char>, t: Seq<char>)
    requires
        text::piece(l),
        !t.contains('\n'),
    ensures
        memo::is_title_line(memo::retitled(l, memo::title_mark(), t)),
        !memo::is_fence(memo::retitled(l, memo::title_mark(), t)),
        memo::is_heading(memo::retitled(l, memo::heading_mark(), t)),
{
    lemma_marks();
    lemma_retitled(l, memo::title_mark(), t, t);
    lemma_retitled(l, memo::heading_mark(), t, t);
    let r = memo::retitled(l, memo::title_mark(), t);
    assert(r[0] == r.take(7)[0] && r[5] == r.take(7)[5]);
    lemma_trim_head(r, 6);
    let tr = text::trim(r);
    assert(tr.take(6) =~= memo::title_key()) by {
        assert forall|j: int| 0 <= j < 6 implies tr.take(6)[j] == memo::title_key()[j] by {
            assert(tr.take(6)[j] == r.take(6)[j]);
            assert(r.take(6)[j] == r.take(7)[j]);
        }
    }
    if tr == memo::fence_text() {
        assert(tr.take(6)[0] == tr[0]);
    }
    let h = memo::retitled(l, memo::heading_mark(), t);
    assert(h.take(2) == memo::heading_mark());
}

/// Rewriting the lines `ls` of a text with a frontmatter twice is rewriting
/// them once with the second title.
#[verifier::spinoff_prover]
#[verifier::rlimit(80)]
proof fn lemma_rewrite_title_twice_fm(c: Seq<char>, t1: Seq<char>, t2: Seq<char>)
    requires
        !t1.contains('\n'),
        !t2.contains('\n'),
        text::starts_with(c, memo::fm_open()),
    ensures
        memo::rewrite_title_spec(memo::rewrite_title_spec(c, t1), t2) == memo::rewrite_title_spec(c, t2),
{
    let ls = text::lines_incl(c);
    let tm = memo::title_mark();
    let hm = memo::heading_mark();
    let pf = memo::line_pred(memo::LineKind::Fence);
    let pt = memo::line_pred(memo::LineKind::Title);
    let ph = memo::line_pred(memo::LineKind::Heading);
    text::lemma_lines_shape(c);
    lemma_marks();
    lemma_opens_with_fence_line(c);
    let n = ls.len() as int;
    let f = text::first_from(ls, pf, 1);
    let t = text::first_from(ls, pt, 1);
    text::lemma_first_from(ls, pf, 1);
    text::lemma_first_from(ls, pt, 1);
    let h = if f < n {
        text::first_from(ls, ph, f + 1)
    } else {
        n
    };
    if f < n {
        text::lemma_first_from(ls, ph, f + 1);
    }
    let x1 = memo::retitled(ls[t], tm, t1);
    let y1 = memo::retitled(ls[h], hm, t1);
    let l1 = if t < f {
        ls.update(t, x1)
    } else {
        ls
    };
    let l2 = if h < n {
        l1.update(h, y1)
    } else {
        l1
    };
    assert(l2.len() == n);
    if t < f {
        lemma_retitled(ls[t], tm, t1, t2);
        lemma_retitled_kinds(ls[t], t1);
    }
    if h < n {
        lemma_retitled(ls[h], hm, t1, t2);
        lemma_retitled_kinds(ls[h], t1);
    }
    // The rewritten lines split back into the same lines.
    assert forall|i: int| 0 <= i < n implies text::piece(#[trigger] l2[i]) && (text::one_line(l2[i])
        == text::one_line(ls[i])) by {
        if i == h && h < n {
        } else if i == t && t < f {
        } else {
            assert(l2[i] == ls[i]);
        }
    }
    assert forall|i: int| 0 <= i < n - 1 implies text::one_line(#[trigger] l2[i]) by {
        assert(text::one_line(ls[i]));
    }
    text::lemma_lines_of_lines(l2);
    let c1 = l2.flatten();
    assert(c1 == memo::rewrite_title_spec(c, t1));
    assert(l2[0] == ls[0]);
    lemma_opens_with_fence_line(c1);
    // The same fence, title line and heading are found again.
    assert forall|j: int| 1 <= j < f implies !pf(#[trigger] l2[j]) by {
        if !(j == t && t < f) {
            assert(l2[j] == ls[j]);
        }
    }
    if f < n {
        assert(l2[f] == ls[f]);
    }
    text::lemma_first_from_is(l2, pf, 1, f);
    let t_new = text::first_from(l2, pt, 1);
    text::lemma_first_from(l2, pt, 1);
    if t < f {
        assert forall|j: int| 1 <= j < t implies !pt(#[trigger] l2[j]) by {
            assert(l2[j] == ls[j]);
        }
        text::lemma_first_from_is(l2, pt, 1, t);
    } else if t_new < f {
        assert(l2[t_new] == ls[t_new]);
    }
    if f < n {
        assert forall|j: int| f + 1 <= j < h implies !ph(#[trigger] l2[j]) by {
            assert(l2[j] == ls[j]);
        }
        text::lemma_first_from_is(l2, ph, f + 1, h);
    }
    // Rewriting again replaces the same lines with the second title.
    let x2 = memo::retitled(ls[t], tm, t2);
    let y2 = memo::retitled(ls[h], hm, t2);
    let m1 = if t < f {
        ls.update(t, x2)
    } else {
        ls
    };
    let m2 = if h < n {
        m1.update(h, y2)
    } else {
        m1
    };
    let k1 = if t < f {
        l2.update(t, memo::retitled(l2[t], tm, t2))
    } else {
        l2
    };
    let k2 = if h < n {
        k1.update(h, memo::retitled(l2[h], hm, t2))
    } else {
        k1
    };
    assert(memo::rewrite_title_spec(c1, t2) == k2.flatten());
    assert(memo::rewrite_title_spec(c, t2) == m2.flatten());
    if t < f {
        assert(l2[t] == x1);
    }
    if h < n {
        assert(l2[h] == y1);
    }
    assert(k2 =~= m2);
}

/// Rewriting the title twice is rewriting it once with the second title:
/// `rewrite_title(rewrite_title(c, t1), t2)` is `rewrite_title(c, t2)`, for
/// every content and titles without a line break.
pub proof fn law_rewrite_title_twice(c: Seq<char>, t1: Seq<char>, t2: Seq<char>)
    requires
        !t1.contains('\n'),
        !t2.contains('\n'),
    ensures
        memo::rewrite_title_spec(memo::rewrite_title_spec(c, t1), t2) == memo::rewrite_title_spec(c, t2),
{
    if text::starts_with(c, memo::fm_open()) {
        lemma_rewrite_title_twice_fm(c, t1, t2);
    } else {
        let ls = text::lines_incl(c);
        let hm = memo::heading_mark();
        let ph = memo::line_pred(memo::LineKind::Heading);
        text::lemma_lines_shape(c);
        lemma_marks();
        lemma_opens_with_fence_line(c);
        let h = text::first_from(ls, ph, 0);
        text::lemma_first_from(ls, ph, 0);
        if h < ls.len() {
            let y1 = memo::retitled(ls[h], hm, t1);
            lemma_retitled(ls[h], hm, t1, t2);
            lemma_retitled_kinds(ls[h], t1);
            let l2 = ls.update(h, y1);
            assert forall|i: int| 0 <= i < l2.len() implies text::piece(#[trigger] l2[i]) && (
            text::one_line(l2[i]) == text::one_line(ls[i])) by {
                if i != h {
                    assert(l2[i] == ls[i]);
                }
            }
            assert forall|i: int| 0 <= i < l2.len() - 1 implies text::one_line(#[trigger] l2[i]) by {
                assert(text::one_line(ls[i]));
            }
            text::lemma_lines_of_lines(l2);
            let c1 = l2.flatten();
            lemma_opens_with_fence_line(c1);
            if h == 0 {
                assert(l2[0][0] == y1.take(2)[0]);
            } else {
                assert(l2[0] == ls[0]);
            }
            assert(!text::starts_with(c1, memo::fm_open()));
            assert forall|j: int| 0 <= j < h implies !ph(#[trigger] l2[j]) by {
                assert(l2[j] == ls[j]);
            }
            text::lemma_first_from_is(l2, ph, 0, h);
            assert(l2.update(h, memo::retitled(l2[h], hm, t2)) =~= ls.update(
                h,
                memo::retitled(ls[h], hm, t2),
            ));
        }
    }
}

/// No text occurs twice in `ts`.
pub open spec fn distinct(ts: Seq<Seq<char>>) -> bool {
    forall|i: int, j: int| 0 <= i < j < ts.len() ==> ts[i] != ts[j]
}

/// Tagging keeps the memo's tags, in order and first; adds every new tag
/// that is not blank (trimmed); adds nothing else; and adds no duplicate:
/// tags without duplicates stay without duplicates.
pub proof fn law_tagging_keeps_and_adds(existing: Seq<Seq<char>>, new: Seq<Seq<char>>)
    ensures
        ({
            let m = store::merged_tags(existing, new);
            &&& existing.len() <= m.len()
            &&& m.take(existing.len() as int) == existing
            &&& forall|i: int| 0 <= i < new.len() && text::trim(#[trigger] new[i]).len() > 0 ==> m.contains(
                text::trim(new[i]),
            )
            &&& forall|k: int|
                existing.len() <= k < m.len() ==> (#[trigger] m[k]).len() > 0 && exists|i: int|
                    0 <= i < new.len() && m[k] == text::trim(#[trigger] new[i])
            &&& distinct(existing) ==> distinct(m)
        }),
    decreases new.len(),
{
    let m = store::merged_tags(existing, new);
    if new.len() == 0 {
        assert(m.take(existing.len() as int) =~= existing);
    } else {
        let d = new.drop_last();
        law_tagging_keeps_and_adds(existing, d);
        let p = store::merged_tags(existing, d);
        let t = text::trim(new.last());
        assert(new[new.len() - 1] == new.last());
        if t.len() > 0 && !p.contains(t) {
            assert(m == p.push(t));
            assert(m.take(existing.len() as int) =~= p.take(existing.len() as int));
            assert forall|i: int| 0 <= i < new.len() && text::trim(#[trigger] new[i]).len() > 0 implies m.contains(
                text::trim(new[i]),
            ) by {
                if i < new.len() - 1 {
                    assert(d[i] == new[i]);
                    assert(p.contains(text::trim(d[i])));
                    let k = choose|k: int| 0 <= k < p.len() && p[k] == text::trim(d[i]);
                    assert(m[k] == p[k]);
                } else {
                    assert(m[p.len() as int] == t);
                }
            }
            assert forall|k: int| existing.len() <= k < m.len() implies (#[trigger] m[k]).len() > 0 && exists|i: int|
                0 <= i < new.len() && m[k] == text::trim(#[trigger] new[i]) by {
                if k < p.len() {
                    assert(m[k] == p[k]);
                    let i = choose|i: int| 0 <= i < d.len() && p[k] == text::trim(#[trigger] d[i]);
                    assert(d[i] == new[i]);
                } else {
                    assert(m[k] == text::trim(new[new.len() - 1]));
                }
            }
            if distinct(existing) {
                assert forall|i: int, j: int| 0 <= i < j < m.len() implies m[i] != m[j] by {
                    if j == p.len() {
                        assert(m[i] == p[i]);
                        assert(m[j] == t);
                    } else {
                        assert(m[i] == p[i] && m[j] == p[j]);
                    }
                }
            }
        } else {
            assert(m == p);
            assert forall|i: int| 0 <= i < new.len() && text::trim(#[trigger] new[i]).len() > 0 implies m.contains(
                text::trim(new[i]),
            ) by {
                if i < new.len() - 1 {
                    assert(d[i] == new[i]);
                }
            }
            assert forall|k: int| existing.len() <= k < m.len() implies (#[trigger] m[k]).len() > 0 && exists|i: int|
                0 <= i < new.len() && m[k] == text::trim(#[trigger] new[i]) by {
                let i = choose|i: int| 0 <= i < d.len() && p[k] == text::trim(#[trigger] d[i]);
                assert(d[i] == new[i]);
            }
        }
    }
}

/// Untagging keeps, in order, exactly the memo's tags whose lowercase form
/// is not among the given tags (trimmed and lowered): the tags are compared
/// without regard to case, and a given tag that the memo does not carry
/// changes nothing.
pub proof fn law_untagging_removes_only_the_given(existing: Seq<Seq<char>>, tags: Seq<Seq<char>>)
    ensures
        ({
            let keys = store::drop_keys(tags);
            let r = store::tags_kept(existing, keys);
            &&& r == existing.filter(|t: Seq<char>| !keys.contains(unicode::lowercase_text(t)))
            &&& forall|k: int| 0 <= k < r.len() ==> existing.contains(#[trigger] r[k])
                && !keys.contains(unicode::lowercase_text(r[k]))
            &&& forall|i: int|
                0 <= i < existing.len() && !keys.contains(unicode::lowercase_text(#[trigger] existing[i]))
                    ==> r.contains(existing[i])
        }),
{
    let keys = store::drop_keys(tags);
    let f = |t: Seq<char>| !keys.contains(unicode::lowercase_text(t));
    lemma_kept_is_filter(existing, keys);
    let r = store::tags_kept(existing, keys);
    assert forall|k: int| 0 <= k < r.len() implies existing.contains(#[trigger] r[k]) && !keys.contains(
        unicode::lowercase_text(r[k]),
    ) by {
        existing.lemma_filter_pred(f, k);
        assert(r.contains(r[k]));
        existing.lemma_filter_contains_rev(f, r[k]);
    }
    assert forall|i: int|
        0 <= i < existing.len() && !keys.contains(unicode::lowercase_text(#[trigger] existing[i])) implies r.contains(
        existing[i],
    ) by {
        existing.lemma_filter_contains(f, i);
    }
}

proof fn lemma_kept_is_filter(ts: Seq<Seq<char>>, keys: Seq<Seq<char>>)
    ensures
        store::tags_kept(ts, keys) == ts.filter(|t: Seq<char>| !keys.contains(unicode::lowercase_text(t))),
    decreases ts.len(),
{
    reveal_with_fuel(Seq::filter, 1);
    if ts.len() > 0 {
        lemma_kept_is_filter(ts.drop_last(), keys);
    }
}

/// Trimming a line that starts with a non-white character and has one at
/// position `n - 1` keeps its first `n` characters.
proof fn lemma_trim_head(l: Seq<char>, n: int)
    requires
        0 < n <= l.len(),
        !text::is_white(l[0]),
        !text::is_white(l[n - 1]),
    ensures
        text::trim(l).len() >= n,
        text::trim(l).take(n) == l.take(n),
{
    let k = text::CharClass::White;
    text::lemma_trail_run_bound(l, k);
    let e = text::trim_end_by(l, k);
    assert(e.len() >= n) by {
        if text::trail_run(l, k) > l.len() - n {
            assert(text::in_class(k, l[n - 1]));
        }
    }
    assert(e[0] == l[0]);
    text::lemma_lead_run_is(e, k, 0);
    assert(text::trim(l) =~= e);
    assert(e.take(n) =~= l.take(n));
}

proof fn lemma_digit_char(k: int)
    requires
        0 <= k < 10,
    ensures
        date::digit(k) != '\n',
{
    let ds = seq!['0', '1', '2', '3', '4', '5', '6', '7', '8', '9'];
    assert(date::digit(k) == ds[k]);
    if k == 0 {
    } else if k == 1 {
    } else if k == 2 {
    } else if k == 3 {
    } else if k == 4 {
    } else if k == 5 {
    } else if k == 6 {
    } else if k == 7 {
    } else if k == 8 {
    } else {
    }
}

proof fn lemma_decimal_no_newline(n: nat)
    ensures
        !date::decimal(n).contains('\n'),
    decreases n,
{
    if n < 10 {
        lemma_digit_char(n as int);
        assert(date::decimal(n) =~= seq![date::digit(n as int)]);
    } else {
        lemma_decimal_no_newline(n / 10);
        lemma_digit_char((n % 10) as int);
        let s = date::decimal(n);
        assert(s =~= date::decimal(n / 10).push(date::digit((n % 10) as int)));
        if s.contains('\n') {
            let j = choose|j: int| 0 <= j < s.len() && s[j] == '\n';
            if j < s.len() - 1 {
                assert(date::decimal(n / 10)[j] == '\n');
            }
        }
    }
}

proof fn lemma_pad_no_newline(s: Seq<char>, w: nat)
    requires
        !s.contains('\n'),
    ensures
        !date::zero_pad(s, w).contains('\n'),
{
    let p = date::zero_pad(s, w);
    if p.contains('\n') {
        let j = choose|j: int| 0 <= j < p.len() && p[j] == '\n';
        if s.len() < w {
            let z = Seq::new((w - s.len()) as nat, |_i: int| '0');
            assert(p == z + s);
            if j >= z.len() {
                assert(s[j - z.len()] == '\n');
            }
        }
    }
}

proof fn lemma_ymd_no_newline(d: Date)
    ensures
        !date::ymd_text(d.y() as int, d.m() as int, d.d() as int).contains('\n'),
{
    let y = d.y() as int;
    let t = date::ymd_text(y, d.m() as int, d.d() as int);
    let ay: nat = if y < 0 {
        (-y) as nat
    } else {
        y as nat
    };
    lemma_decimal_no_newline(ay);
    lemma_pad_no_newline(date::decimal(ay), 4);
    lemma_decimal_no_newline(d.m() as nat);
    lemma_pad_no_newline(date::decimal(d.m() as nat), 2);
    lemma_decimal_no_newline(d.d() as nat);
    lemma_pad_no_newline(date::decimal(d.d() as nat), 2);
    let yt = date::year_text(y);
    assert(!yt.contains('\n')) by {
        if yt.contains('\n') {
            let j = choose|j: int| 0 <= j < yt.len() && yt[j] == '\n';
            if 0 <= y <= 9999 {
            } else {
                let z = date::zero_pad(date::decimal(ay), 4);
                assert(j > 0);
                assert(z[j - 1] == '\n');
            }
        }
    }
    let mt = date::zero_pad(date::decimal(d.m() as nat), 2);
    let dt = date::zero_pad(date::decimal(d.d() as nat), 2);
    assert(t == yt + seq!['-'] + mt + seq!['-'] + dt);
    if t.contains('\n') {
        let j = choose|j: int| 0 <= j < t.len() && t[j] == '\n';
        if j < yt.len() {
            assert(yt[j] == '\n');
        } else if j == yt.len() {
        } else if j < yt.len() + 1 + mt.len() {
            assert(mt[j - yt.len() - 1] == '\n');
        } else if j == yt.len() + 1 + mt.len() {
        } else {
            assert(dt[j - yt.len() - 2 - mt.len()] == '\n');
        }
    }
}

/// `p + x + "\n"` is one full line when `x` holds no newline and `p` is a
/// newline-free prefix.
proof fn lemma_one_line(p: Seq<char>, x: Seq<char>)
    requires
        !p.contains('\n'),
        !x.contains('\n'),
    ensures
        text::one_line(p + x + seq!['\n']),
{
    let l = p + x + seq!['\n'];
    assert forall|j: int| 0 <= j < l.len() - 1 implies l[j] != '\n' by {
        if j < p.len() {
            assert(l[j] == p[j]);
            if p[j] == '\n' {
                assert(p.contains('\n'));
            }
        } else {
            assert(l[j] == x[j - p.len()]);
            if x[j - p.len()] == '\n' {
                assert(x.contains('\n'));
            }
        }
    }
}

/// The title line of the template.
spec fn title_line(title: Seq<char>) -> Seq<char> {
    memo::title_mark() + title + seq!['\n']
}

/// The date line of the template.
spec fn date_line(d: Date) -> Seq<char> {
    seq!['d', 'a', 't', 'e', ':', ' '] + date::ymd_text(d.y() as int, d.m() as int, d.d() as int) + seq!['\n']
}

/// The empty tags line of the template.
spec fn empty_tags_line() -> Seq<char> {
    seq!['t', 'a', 'g', 's', ':', ' ', '[', ']', '\n']
}

/// What follows the tags line in the template.
spec fn template_tail(title: Seq<char>, content: Option<Seq<char>>) -> Seq<char> {
    let head_rest = seq!['-', '-', '-', '\n', '\n'] + memo::heading_mark() + title + seq!['\n'];
    match content {
        None => head_rest,
        Some(x) => head_rest + seq!['\n'] + x + if x.len() > 0 && x.last() == '\n' {
            seq![]
        } else {
            seq!['\n']
        },
    }
}

/// The template without its content.
spec fn template_head(title: Seq<char>, d: Date) -> Seq<char> {
    store::template(title, d, None)
}

#[verifier::spinoff_prover]
proof fn lemma_template_head(title: Seq<char>, d: Date)
    ensures
        template_head(title, d) == memo::fm_open() + (title_line(title) + (date_line(d) + (empty_tags_line()
            + template_tail(title, None)))),
{
    let ymd = date::ymd_text(d.y() as int, d.m() as int, d.d() as int);
    let fm = memo::fm_open();
    let l0 = title_line(title);
    let l1 = date_line(d);
    let l2 = empty_tags_line();
    let hr = template_tail(title, None);
    let h = template_head(title, d);
    assert(h == seq!['-', '-', '-', '\n'] + memo::title_mark() + title + seq!['\n'] + seq![
        'd',
        'a',
        't',
        'e',
        ':',
        ' ',
    ] + ymd + seq!['\n'] + seq!['t', 'a', 'g', 's', ':', ' ', '[', ']', '\n'] + seq!['-', '-', '-', '\n', '\n']
        + memo::heading_mark() + title + seq!['\n']);
    let a1 = seq!['-', '-', '-', '\n'] + memo::title_mark() + title + seq!['\n'];
    assert(a1 =~= fm + l0);
    let a2 = a1 + seq!['d', 'a', 't', 'e', ':', ' '] + ymd + seq!['\n'];
    assert(a2 =~= fm + l0 + l1);
    let a3 = a2 + seq!['t', 'a', 'g', 's', ':', ' ', '[', ']', '\n'];
    assert(a3 =~= fm + l0 + l1 + l2);
    assert(h =~= a3 + hr);
    assert(h =~= fm + (l0 + (l1 + (l2 + hr))));
}

#[verifier::spinoff_prover]
proof fn lemma_template_parts(title: Seq<char>, d: Date, content: Option<Seq<char>>)
    ensures
        text::starts_with(store::template(title, d, content), memo::fm_open()),
        store::template(title, d, content).skip(4) == title_line(title) + (date_line(d) + (empty_tags_line()
            + template_tail(title, content))),
{
    let c = store::template(title, d, content);
    let fm = memo::fm_open();
    let rest = title_line(title) + (date_line(d) + (empty_tags_line() + template_tail(title, None)));
    lemma_template_head(title, d);
    match content {
        None => {
            assert(c == fm + rest);
        },
        Some(x) => {
            let ext = seq!['\n'] + x + if x.len() > 0 && x.last() == '\n' {
                seq![]
            } else {
                seq!['\n']
            };
            assert(c == template_head(title, d) + ext);
            assert(template_tail(title, content) == template_tail(title, None) + ext);
            assert(c =~= fm + (rest + ext));
            assert(rest + ext =~= title_line(title) + (date_line(d) + (empty_tags_line() + template_tail(
                title,
                content,
            ))));
        },
    }
    assert(c.take(4) =~= fm);
    assert(c.skip(4) =~= title_line(title) + (date_line(d) + (empty_tags_line() + template_tail(title, content))));
}

#[verifier::spinoff_prover]
proof fn lemma_template_lines(title: Seq<char>, d: Date, content: Option<Seq<char>>)
    requires
        !title.contains('\n'),
    ensures
        text::starts_with(store::template(title, d, content), memo::fm_open()),
        text::lines_incl(store::template(title, d, content).skip(4)).len() >= 3,
        text::lines_incl(store::template(title, d, content).skip(4))[0] == title_line(title),
        text::lines_incl(store::template(title, d, content).skip(4))[1] == date_line(d),
        text::lines_incl(store::template(title, d, content).skip(4))[2] == empty_tags_line(),
        text::lines_incl(store::template(title, d, content).skip(4)).len() >= 4,
        text::lines_incl(store::template(title, d, content).skip(4))[3] == memo::fm_open(),
{
    let ymd = date::ymd_text(d.y() as int, d.m() as int, d.d() as int);
    let l0 = title_line(title);
    let l1 = date_line(d);
    let l2 = empty_tags_line();
    let tail = template_tail(title, content);
    lemma_template_parts(title, d, content);
    lemma_ymd_no_newline(d);
    assert(!memo::title_mark().contains('\n')) by {
        if memo::title_mark().contains('\n') {
            let j = choose|j: int| 0 <= j < 7 && memo::title_mark()[j] == '\n';
        }
    }
    let dm = seq!['d', 'a', 't', 'e', ':', ' '];
    assert(!dm.contains('\n')) by {
        if dm.contains('\n') {
            let j = choose|j: int| 0 <= j < 6 && dm[j] == '\n';
        }
    }
    lemma_one_line(memo::title_mark(), title);
    lemma_one_line(dm, ymd);
    assert(text::one_line(l2)) by {
        assert forall|j: int| 0 <= j < l2.len() - 1 implies l2[j] != '\n' by {}
    }
    lemma_open_is_fence();
    assert(tail =~= memo::fm_open() + tail.skip(4));
    text::lemma_lines_first(memo::fm_open(), tail.skip(4));
    text::lemma_lines_first(l2, tail);
    text::lemma_lines_first(l1, l2 + tail);
    text::lemma_lines_first(l0, l1 + (l2 + tail));
}

proof fn lemma_head_lines_not_tags(title: Seq<char>, d: Date)
    ensures
        !memo::line_pred(memo::LineKind::FenceOrTags)(title_line(title)),
        !memo::line_pred(memo::LineKind::FenceOrTags)(date_line(d)),
{
    let l0 = title_line(title);
    let l1 = date_line(d);
    lemma_trim_head(l0, 6);
    lemma_trim_head(l1, 5);
    let t0 = text::trim(l0);
    let t1 = text::trim(l1);
    assert(t0.take(6)[1] == 'i' && t0.take(6)[0] == 't');
    assert(t1.take(5)[0] == 'd');
    if text::starts_with(t0, memo::tags_key()) {
        assert(t0.take(5)[1] == memo::tags_key()[1]);
    }
    if t0 == memo::fence_text() {
        assert(t0[0] == '-');
    }
    if text::starts_with(t1, memo::tags_key()) {
        assert(t1.take(5)[0] == memo::tags_key()[0]);
    }
    if t1 == memo::fence_text() {
        assert(t1[0] == '-');
    }
}

proof fn lemma_empty_tags_line()
    ensures
        memo::line_pred(memo::LineKind::FenceOrTags)(empty_tags_line()),
        !memo::is_fence(empty_tags_line()),
        memo::tags_in_line(empty_tags_line()) == Seq::<Seq<char>>::empty(),
{
    let l2 = empty_tags_line();
    let k = text::CharClass::White;
    let t2 = seq!['t', 'a', 'g', 's', ':', ' ', '[', ']'];
    assert(text::trim(l2) == t2) by {
        text::lemma_trail_run_is(l2, k, 1);
        assert(text::trim_end_by(l2, k) =~= t2);
        text::lemma_lead_run_is(t2, k, 0);
        assert(t2.skip(0) =~= t2);
    }
    assert(memo::is_tags_line(l2)) by {
        assert(t2.take(5) =~= memo::tags_key());
    }
    assert(t2 != memo::fence_text()) by {
        assert(t2.len() == 8);
    }
    let w = t2.skip(5);
    let v = seq!['[', ']'];
    assert(text::trim(w) == v) by {
        assert(w =~= seq![' ', '[', ']']);
        text::lemma_trail_run_is(w, k, 0);
        assert(text::trim_end_by(w, k) =~= w);
        text::lemma_lead_run_is(w, k, 1);
        assert(w.skip(1) =~= v);
    }
    let inner = v.subrange(1, 1);
    assert(inner =~= Seq::<char>::empty());
    text::lemma_split_none(inner, ',');
    let ps = text::split_on(inner, ',');
    assert(ps =~= seq![Seq::<char>::empty()]);
    assert(memo::clean_tag(seq![]) =~= Seq::<char>::empty()) by {
        assert(text::trim(seq![]) =~= Seq::<char>::empty());
        assert(text::trim_by(seq![], text::CharClass::Quote) =~= Seq::<char>::empty());
    }
    assert(ps.drop_last() =~= Seq::<Seq<char>>::empty());
    assert(memo::keep_tags(ps) == memo::keep_tags(ps.drop_last()));
}

/// A new memo opens with a closed frontmatter block and has no tags: the
/// template that `create` writes lists none, whatever its content, for every
/// title without a line break.
pub proof fn law_new_memo_has_no_tags(title: Seq<char>, d: Date, content: Option<Seq<char>>)
    requires
        !title.contains('\n'),
    ensures
        memo::has_frontmatter(store::template(title, d, content)),
        memo::parse_tags_spec(store::template(title, d, content)) == Seq::<Seq<char>>::empty(),
{
    let c = store::template(title, d, content);
    lemma_template_lines(title, d, content);
    lemma_head_lines_not_tags(title, d);
    lemma_empty_tags_line();
    let ls = text::lines_incl(c.skip(4));
    let pf = memo::line_pred(memo::LineKind::FenceOrTags);
    assert(!pf(ls[0]) && !pf(ls[1]) && pf(ls[2]));
    assert forall|j: int| 0 <= j < 2 implies !pf(#[trigger] ls[j]) by {}
    text::lemma_first_from_is(ls, pf, 0, 2);
    lemma_open_is_fence();
    assert(memo::line_pred(memo::LineKind::Fence)(ls[3]));
    lemma_first_at_most(ls, memo::line_pred(memo::LineKind::Fence), 3);
}

/// A sync pushes only after a successful pull: the step that runs
/// `git push` comes only after the report of a pull, which comes only from
/// a pull that succeeded; a failed pull never leads to the push.
pub proof fn law_push_only_after_pull(s: SyncState, e: SyncEvent, dir: Seq<char>, r: (SyncState, SyncAction))
    requires
        sync::next(s, e, dir, r),
    ensures
        sync::runs(r.1, seq!["push"@]) ==> s is Pulled && e is Printed,
        r.0 is Pulled ==> s is Pulling && (e matches SyncEvent::Git { success, .. } && success),
        s is Pulling && (e matches SyncEvent::Git { success, .. } && !success) ==> !sync::runs(r.1, seq!["push"@]),
        s is Inspecting ==> r.0 is Finished,
{
    reveal_strlit("push");
    reveal_strlit("add");
    reveal_strlit("diff");
    reveal_strlit("pull");
    reveal_strlit("commit");
    reveal_strlit("ls-files");
    if sync::runs(r.1, seq!["push"@]) {
        match r.1 {
            SyncAction::Git(v) => {
                assert(v.deep_view().len() == 1);
                assert(v.deep_view()[0] == "push"@);
            },
            _ => {},
        }
    }
}

/// The memo directory of a configuration in use is absolute when it was
/// written as an absolute path or under `~`, and the home directory is
/// absolute. (A relative directory stays relative.)
pub proof fn law_expanded_directory_is_absolute(dir: Seq<char>, home: Seq<char>)
    requires
        home.len() > 0 && home[0] == '/',
        (dir.len() > 0 && dir[0] == '/') || config::after_tilde(dir) is Some,
    ensures
        config::tilde_expanded(dir, Some(home)).len() > 0,
        config::tilde_expanded(dir, Some(home))[0] == '/',
{
    match config::after_tilde(dir) {
        Some(rest) => {
            let j = crate::path::join_path(home, rest);
            if rest.len() > 0 && rest[0] == '/' {
            } else if home.last() == '/' {
                assert(j[0] == home[0]);
            } else {
                assert(j[0] == home[0]);
            }
        },
        None => {},
    }
}

/// The matches of a search are numbered from 1, in increasing order, and
/// none lies past the last line.
pub proof fn law_matches_ascend(ls: Seq<Seq<char>>, needle: Seq<char>)
    ensures
        forall|k: int|
            0 <= k < search::line_hits(ls, needle).len() ==> 1 <= (#[trigger] search::line_hits(ls, needle)[k]).0
                <= ls.len(),
        forall|a: int, b: int|
            0 <= a < b < search::line_hits(ls, needle).len() ==> (#[trigger] search::line_hits(ls, needle)[a]).0
                < (#[trigger] search::line_hits(ls, needle)[b]).0,
    decreases ls.len(),
{
    if ls.len() > 0 {
        let d = ls.drop_last();
        law_matches_ascend(d, needle);
        let h = search::line_hits(d, needle);
        let m = search::line_hits(ls, needle);
        if m.len() > h.len() {
            assert(m == h.push((ls.len() as int, text::trim(ls.last()))));
            assert forall|a: int, b: int| 0 <= a < b < m.len() implies (#[trigger] m[a]).0 < (#[trigger] m[b]).0 by {
                if b < h.len() {
                    assert(m[a] == h[a] && m[b] == h[b]);
                } else {
                    assert(m[a] == h[a]);
                }
            }
            assert forall|k: int| 0 <= k < m.len() implies 1 <= (#[trigger] m[k]).0 <= ls.len() by {
                if k < h.len() {
                    assert(m[k] == h[k]);
                }
            }
        }
    }
}

/// The default memo directory is absolute and named `stpls` when the home
/// directory is absolute.
pub proof fn law_default_directory_is_absolute(home: Seq<char>)
    requires
        home.len() > 0 && home[0] == '/',
    ensures
        config::memo_directory_in(Some(home))[0] == '/',
        crate::path::last_segment(config::memo_directory_in(Some(home))) == config::stpls(),
{
    let s = config::stpls();
    assert(!s.contains('/')) by {
        if s.contains('/') {
            let k = choose|k: int| 0 <= k < 5 && s[k] == '/';
        }
    }
    crate::path::lemma_last_segment_join(home, s);
    let j = crate::path::join_path(home, s);
    assert(j[0] == home[0]);
}

proof fn lemma_kept_all(ts: Seq<Seq<char>>, keys: Seq<Seq<char>>)
    requires
        forall|i: int| 0 <= i < ts.len() ==> !keys.contains(unicode::lowercase_text(#[trigger] ts[i])),
    ensures
        store::tags_kept(ts, keys) == ts,
    decreases ts.len(),
{
    if ts.len() > 0 {
        let d = ts.drop_last();
        assert forall|i: int| 0 <= i < d.len() implies !keys.contains(unicode::lowercase_text(#[trigger] d[i])) by {
            assert(d[i] == ts[i]);
        }
        lemma_kept_all(d, keys);
        assert(!keys.contains(unicode::lowercase_text(ts[ts.len() - 1])));
        assert(ts =~= d.push(ts.last()));
    }
}

/// Untagging a tag that was just added gives the memo its tags back, when
/// none of them already matched that tag (case aside) and the tag is not
/// blank, trimmed or lowered.
pub proof fn law_untag_undoes_tag(existing: Seq<Seq<char>>, t: Seq<char>)
    requires
        text::trim(t).len() > 0,
        unicode::lowercase_text(text::trim(t)).len() > 0,
        forall|i: int|
            0 <= i < existing.len() ==> unicode::lowercase_text(#[trigger] existing[i])
                != unicode::lowercase_text(text::trim(t)),
    ensures
        store::tags_kept(store::merged_tags(existing, seq![t]), store::drop_keys(seq![t])) == existing,
{
    let x = text::trim(t);
    let k = unicode::lowercase_text(x);
    let keys = store::drop_keys(seq![t]);
    assert(seq![t].drop_last() =~= Seq::<Seq<char>>::empty());
    assert(seq![t].last() == t);
    assert(keys == seq![k]) by {
        reveal_with_fuel(store::drop_keys, 2);
        assert(store::drop_keys(Seq::<Seq<char>>::empty()) == Seq::<Seq<char>>::empty());
        assert(Seq::<Seq<char>>::empty().push(k) =~= seq![k]);
    }
    let m = store::merged_tags(existing, seq![t]);
    assert(store::merged_tags(existing, Seq::<Seq<char>>::empty()) == existing);
    assert(!existing.contains(x)) by {
        if existing.contains(x) {
            let i = choose|i: int| 0 <= i < existing.len() && existing[i] == x;
            assert(unicode::lowercase_text(existing[i]) == k);
        }
    }
    assert(m == existing.push(x));
    assert forall|i: int| 0 <= i < existing.len() implies !keys.contains(unicode::lowercase_text(#[trigger] existing[i])) by {
        if keys.contains(unicode::lowercase_text(existing[i])) {
            let j = choose|j: int| 0 <= j < keys.len() && keys[j] == unicode::lowercase_text(existing[i]);
            assert(keys[0] == k);
        }
    }
    lemma_kept_all(existing, keys);
    assert(m.drop_last() =~= existing);
    assert(m.last() == x);
    assert(keys.contains(k)) by {
        assert(keys[0] == k);
    }
}

/// A character of a slug word: a small ASCII letter or an ASCII digit.
pub open spec fn is_word_char(c: char) -> bool {
    unicode::is_ascii_lower(c) || unicode::is_ascii_digit(c)
}

/// A slug as `slugify` writes it for an ASCII title: nonempty, made of small
/// ASCII letters, ASCII digits and `-`, neither starting nor ending with
/// `-`, and without two `-` in a row.
pub open spec fn is_ascii_slug(s: Seq<char>) -> bool {
    &&& s.len() > 0
    &&& s[0] != '-'
    &&& s.last() != '-'
    &&& forall|i: int| 0 <= i < s.len() ==> is_word_char(#[trigger] s[i]) || s[i] == '-'
    &&& forall|i: int| 0 <= i < s.len() - 1 && #[trigger] s[i] == '-' ==> s[i + 1] != '-'
}

/// A word character raised to upper case is an ASCII letter or digit that
/// lowers back to it.
proof fn lemma_word_char(c: char)
    requires
        is_word_char(c),
    ensures
        unicode::is_ascii(c),
        unicode::is_ascii_alphanumeric(c),
        unicode::ascii_lower(c) == c,
        unicode::is_ascii(unicode::ascii_upper(c)),
        unicode::is_ascii_alphanumeric(unicode::ascii_upper(c)),
        unicode::ascii_lower(unicode::ascii_upper(c)) == c,
{
    if unicode::is_ascii_lower(c) {
        let u = (c as u32) - 0x20;
        assert(0x41 <= u <= 0x5A);
        let d = unicode::ascii_upper(c);
        assert(d == u as char);
        assert(d as u32 == u);
        assert(((d as u32) + 0x20) as char == c);
    }
}

/// Space and `-` are not alphanumeric.
proof fn lemma_separators()
    ensures
        !unicode::is_alphanumeric(' '),
        !unicode::is_alphanumeric('-'),
{
}

/// Collapsing text followed by ASCII letters and digits lowers them and
/// appends them.
proof fn lemma_collapse_alnum(a: Seq<char>, b: Seq<char>)
    requires
        forall|i: int| 0 <= i < b.len() ==> unicode::is_ascii(#[trigger] b[i]) && unicode::is_ascii_alphanumeric(b[i]),
    ensures
        memo::collapse(a + b) == memo::collapse(a) + b.map_values(|c: char| unicode::ascii_lower(c)),
    decreases b.len(),
{
    if b.len() == 0 {
        assert(a + b =~= a);
        assert(memo::collapse(a) + b.map_values(|c: char| unicode::ascii_lower(c)) =~= memo::collapse(a));
    } else {
        let d = b.drop_last();
        lemma_collapse_alnum(a, d);
        let ab = a + b;
        assert(ab.drop_last() =~= a + d);
        assert(ab.last() == b[b.len() - 1]);
        assert(unicode::is_alphanumeric(ab.last()));
        assert(memo::collapse(ab) == memo::collapse(a + d) + seq![unicode::ascii_lower(b[b.len() - 1])]);
        assert(memo::collapse(a) + b.map_values(|c: char| unicode::ascii_lower(c)) =~= memo::collapse(a)
            + d.map_values(|c: char| unicode::ascii_lower(c)) + seq![unicode::ascii_lower(b[b.len() - 1])]);
    }
}

/// A space behind an alphanumeric character collapses to one `-`.
proof fn lemma_collapse_space(a: Seq<char>)
    requires
        a.len() > 0,
        unicode::is_alphanumeric(a.last()),
    ensures
        memo::collapse(a.push(' ')) == memo::collapse(a).push('-'),
{
    let t = a.push(' ');
    lemma_separators();
    assert(t.drop_last() =~= a);
    assert(t.last() == ' ');
    assert(t[t.len() - 2] == a.last());
}

/// The index of the last `-` of `s`, or -1.
spec fn last_dash(s: Seq<char>) -> int
    decreases s.len(),
{
    if s.len() == 0 {
        -1
    } else if s.last() == '-' {
        s.len() - 1
    } else {
        last_dash(s.drop_last())
    }
}

proof fn lemma_last_dash(s: Seq<char>)
    ensures
        -1 <= last_dash(s) < s.len(),
        last_dash(s) >= 0 ==> s[last_dash(s)] == '-',
        forall|j: int| last_dash(s) < j < s.len() ==> s[j] != '-',
    decreases s.len(),
{
    if s.len() > 0 && s.last() != '-' {
        let d = s.drop_last();
        lemma_last_dash(d);
        assert forall|j: int| last_dash(s) < j < s.len() implies s[j] != '-' by {
            if j < s.len() - 1 {
                assert(s[j] == d[j]);
            }
        }
    }
}

/// A capitalized slug word is ASCII letters and digits that lower back to
/// the word.
proof fn lemma_capitalized_word(w: Seq<char>)
    requires
        w.len() > 0,
        forall|i: int| 0 <= i < w.len() ==> is_word_char(#[trigger] w[i]),
    ensures
        memo::capitalized(w).len() == w.len(),
        forall|i: int| 0 <= i < w.len() ==> unicode::is_ascii(#[trigger] memo::capitalized(w)[i])
            && unicode::is_ascii_alphanumeric(memo::capitalized(w)[i]),
        memo::capitalized(w).map_values(|c: char| unicode::ascii_lower(c)) == w,
{
    let cw = memo::capitalized(w);
    lemma_word_char(w[0]);
    assert(cw =~= seq![unicode::ascii_upper(w[0])] + w.skip(1));
    assert forall|i: int| 0 <= i < w.len() implies unicode::is_ascii(#[trigger] cw[i])
        && unicode::is_ascii_alphanumeric(cw[i]) by {
        if i > 0 {
            assert(cw[i] == w[i]);
            lemma_word_char(w[i]);
        }
    }
    assert forall|i: int| 0 <= i < w.len() implies cw.map_values(|c: char| unicode::ascii_lower(c))[i]
        == w[i] by {
        if i > 0 {
            assert(cw[i] == w[i]);
            lemma_word_char(w[i]);
        }
    }
    assert(cw.map_values(|c: char| unicode::ascii_lower(c)) =~= w);
}

/// The title of an ASCII slug is nonempty, ends in an alphanumeric
/// character, and collapses back to the slug.
proof fn lemma_title_collapses(s: Seq<char>)
    requires
        is_ascii_slug(s),
    ensures
        memo::title_of_slug(s).len() > 0,
        unicode::is_alphanumeric(memo::title_of_slug(s).last()),
        memo::collapse(memo::title_of_slug(s)) == s,
    decreases s.len(),
{
    lemma_last_dash(s);
    let d = last_dash(s);
    // The last word of the slug.
    let w = s.skip(d + 1);
    assert(w.len() > 0) by {
        if d == s.len() - 1 {
            assert(s[d] == s.last());
        }
    }
    assert forall|i: int| 0 <= i < w.len() implies is_word_char(#[trigger] w[i]) by {
        assert(w[i] == s[d + 1 + i]);
    }
    assert(!w.contains('-')) by {
        if w.contains('-') {
            let i = choose|i: int| 0 <= i < w.len() && w[i] == '-';
            assert(w[i] == s[d + 1 + i]);
        }
    }
    text::lemma_split_none(w, '-');
    lemma_capitalized_word(w);
    let cw = memo::capitalized(w);
    assert(cw.last() == cw[cw.len() - 1]);
    if d < 0 {
        assert(w =~= s);
        assert(memo::title_words(seq![w]) =~= seq![cw]) by {
            assert(seq![w].drop_last() =~= Seq::<Seq<char>>::empty());
            assert(seq![w].last() == w);
            assert(memo::title_words(Seq::<Seq<char>>::empty()) =~= Seq::<Seq<char>>::empty());
            assert(Seq::<Seq<char>>::empty().push(cw) =~= seq![cw]);
        }
        assert(memo::title_of_slug(s) == cw);
        lemma_collapse_alnum(Seq::<char>::empty(), cw);
        assert(Seq::<char>::empty() + cw =~= cw);
        assert(memo::collapse(Seq::<char>::empty()) =~= Seq::<char>::empty());
        assert(Seq::<char>::empty() + w =~= w);
    } else {
        let a = s.take(d);
        assert(d > 0);
        assert(is_ascii_slug(a)) by {
            assert(a[0] == s[0]);
            assert(a.last() == s[d - 1]);
            assert(s[d - 1] != '-');
            assert forall|i: int| 0 <= i < a.len() implies is_word_char(#[trigger] a[i]) || a[i] == '-' by {
                assert(a[i] == s[i]);
            }
            assert forall|i: int| 0 <= i < a.len() - 1 && #[trigger] a[i] == '-' implies a[i + 1] != '-' by {
                assert(a[i] == s[i]);
                assert(a[i + 1] == s[i + 1]);
            }
        }
        lemma_title_collapses(a);
        assert(s =~= a + seq!['-'] + w);
        text::lemma_split_concat(a, w, '-');
        let pa = text::split_on(a, '-');
        let ta = memo::title_words(pa);
        let p = pa + seq![w];
        assert(p.drop_last() =~= pa);
        assert(p.last() == w);
        assert(memo::title_words(p) == ta.push(cw));
        let t_a = memo::title_of_slug(a);
        assert(ta.len() > 0) by {
            if ta.len() == 0 {
                assert(t_a =~= Seq::<char>::empty());
            }
        }
        text::lemma_join_push(ta, cw, seq![' ']);
        let t = memo::title_of_slug(s);
        assert(t =~= t_a.push(' ') + cw);
        assert(t_a.last() == t_a[t_a.len() - 1]);
        lemma_collapse_space(t_a);
        lemma_collapse_alnum(t_a.push(' '), cw);
        assert(t.last() == cw.last());
        assert(a.push('-') + w =~= s);
    }
}

/// A slug turned into a title and back is the same slug: for every slug that
/// `slugify` writes for an ASCII title, `slugify(title_from_slug(s))` is `s`.
pub proof fn law_slug_title_round_trip(s: Seq<char>)
    requires
        is_ascii_slug(s),
    ensures
        memo::slug_of(memo::title_of_slug(s)) == s,
{
    lemma_title_collapses(s);
    let k = text::CharClass::Dash;
    text::lemma_trail_run_is(s, k, 0);
    assert(text::trim_end_by(s, k) =~= s);
    text::lemma_lead_run_is(s, k, 0);
    assert(s.skip(0) =~= s);
}

/// What `memo_path` builds, `Memo::from_path` reads back: for a day of one
/// of the years 0 to 9999 and a nonempty slug of alphanumeric characters and
/// `-` (as every slug that `slugify` gives for an ASCII title),
/// `memo_path(dir, d, slug)` is a path at which `from_path` finds the file
/// memo of that day and slug.
pub proof fn law_memo_path_reads_back(dir: Seq<char>, d: Date, slug: Seq<char>)
    requires
        date::is_calendar_date(d.y() as int, d.m() as int, d.d() as int),
        0 <= d.y() <= 9999,
        slug.len() > 0,
        forall|i: int| 0 <= i < slug.len() ==> unicode::is_alphanumeric(#[trigger] slug[i]) || slug[i] == '-',
    ensures
        memo::written_at(memo::memo_path_of(dir, d, slug), dir, d, slug),
{
    assert(!slug.contains('/')) by {
        if slug.contains('/') {
            let i = choose|i: int| 0 <= i < slug.len() && slug[i] == '/';
            assert(unicode::is_alphanumeric(slug[i]) || slug[i] == '-');
        }
    }
    assert(!slug.contains('.')) by {
        if slug.contains('.') {
            let i = choose|i: int| 0 <= i < slug.len() && slug[i] == '.';
            assert(unicode::is_alphanumeric(slug[i]) || slug[i] == '-');
        }
    }
}

/// A text is among the keys that untagging drops exactly when it is the
/// nonblank trimmed, lowered form of one of the given tags.
proof fn lemma_drop_keys(tags: Seq<Seq<char>>, x: Seq<char>)
    ensures
        store::drop_keys(tags).contains(x) <==> (x.len() > 0 && exists|i: int|
            0 <= i < tags.len() && unicode::lowercase_text(text::trim(#[trigger] tags[i])) == x),
    decreases tags.len(),
{
    if tags.len() > 0 {
        let d = tags.drop_last();
        lemma_drop_keys(d, x);
        let last = tags[tags.len() - 1];
        assert(tags.last() == last);
        let k = unicode::lowercase_text(text::trim(last));
        let dk = store::drop_keys(d);
        let all = store::drop_keys(tags);
        assert(all == if k.len() > 0 {
            dk.push(k)
        } else {
            dk
        });
        if all.contains(x) {
            let m = choose|m: int| 0 <= m < all.len() && all[m] == x;
            if m < dk.len() {
                assert(dk[m] == all[m]);
                assert(dk.contains(x));
                let i = choose|i: int| 0 <= i < d.len() && unicode::lowercase_text(text::trim(#[trigger] d[i])) == x;
                assert(d[i] == tags[i]);
            } else {
                assert(x == k);
                assert(unicode::lowercase_text(text::trim(tags[tags.len() - 1])) == x);
            }
        }
        if x.len() > 0 && exists|i: int| 0 <= i < tags.len() && unicode::lowercase_text(text::trim(#[trigger] tags[i])) == x {
            let i = choose|i: int| 0 <= i < tags.len() && unicode::lowercase_text(text::trim(#[trigger] tags[i])) == x;
            if i == tags.len() - 1 {
                assert(all == dk.push(k));
                assert(all[dk.len() as int] == x);
            } else {
                assert(d[i] == tags[i]);
                assert(dk.contains(x));
                let m = choose|m: int| 0 <= m < dk.len() && dk[m] == x;
                if k.len() > 0 {
                    assert(all[m] == dk[m]);
                }
            }
        }
    }
}

/// Untagging drops every given tag: no tag left on the memo has, lowered,
/// the trimmed and lowered form of any nonblank given tag, wherever it
/// stands in the list; and every memo tag that matches none of them stays.
pub proof fn law_untag_drops_every_given(existing: Seq<Seq<char>>, tags: Seq<Seq<char>>)
    ensures
        ({
            let r = store::tags_kept(existing, store::drop_keys(tags));
            &&& forall|k: int, i: int|
                0 <= k < r.len() && 0 <= i < tags.len() && unicode::lowercase_text(text::trim(tags[i])).len() > 0
                    ==> unicode::lowercase_text(#[trigger] r[k]) != unicode::lowercase_text(
                    text::trim(#[trigger] tags[i]),
                )
            &&& forall|j: int|
                0 <= j < existing.len() && (forall|i: int|
                    0 <= i < tags.len() ==> unicode::lowercase_text(text::trim(#[trigger] tags[i])).len() == 0
                        || unicode::lowercase_text(existing[j]) != unicode::lowercase_text(text::trim(tags[i])))
                    ==> r.contains(#[trigger] existing[j])
        }),
{
    let keys = store::drop_keys(tags);
    let r = store::tags_kept(existing, keys);
    law_untagging_removes_only_the_given(existing, tags);
    assert forall|k: int, i: int|
        0 <= k < r.len() && 0 <= i < tags.len() && unicode::lowercase_text(text::trim(tags[i])).len() > 0
            implies unicode::lowercase_text(#[trigger] r[k]) != unicode::lowercase_text(
            text::trim(#[trigger] tags[i]),
        ) by {
        let x = unicode::lowercase_text(text::trim(tags[i]));
        lemma_drop_keys(tags, x);
        assert(keys.contains(x));
        assert(!keys.contains(unicode::lowercase_text(r[k])));
    }
    assert forall|j: int|
        0 <= j < existing.len() && (forall|i: int|
            0 <= i < tags.len() ==> unicode::lowercase_text(text::trim(#[trigger] tags[i])).len() == 0
                || unicode::lowercase_text(existing[j]) != unicode::lowercase_text(text::trim(tags[i])))
            implies r.contains(#[trigger] existing[j]) by {
        let x = unicode::lowercase_text(existing[j]);
        lemma_drop_keys(tags, x);
        if keys.contains(x) {
            let i = choose|i: int| 0 <= i < tags.len() && unicode::lowercase_text(text::trim(#[trigger] tags[i])) == x;
        }
    }
}

/// A text contains a needle exactly when it is the needle with text before
/// and after it: at the start, in the middle, at the very end, or alone.
pub proof fn law_contains_text_occurrence(hay: Seq<char>, needle: Seq<char>)
    ensures
        forall|p: Seq<char>, q: Seq<char>| hay == p + needle + q ==> search::contains_text(hay, needle),
        search::contains_text(hay, needle) ==> exists|p: Seq<char>, q: Seq<char>| hay == p + needle + q,
{
    assert forall|p: Seq<char>, q: Seq<char>| hay == p + needle + q implies search::contains_text(
        hay,
        needle,
    ) by {
        assert(hay.subrange(p.len() as int, (p.len() + needle.len()) as int) =~= needle);
    }
    if search::contains_text(hay, needle) {
        let i = choose|i: int| 0 <= i && i + needle.len() <= hay.len() && #[trigger] hay.subrange(
            i,
            i + needle.len(),
        ) == needle;
        let p = hay.take(i);
        let q = hay.skip(i + needle.len());
        assert(hay =~= p + needle + q);
    }
}

/// Every line whose lowered text holds the lowered query, anywhere in it
/// (at its end too, or as the whole line), is a hit, under its 1-based
/// number and with its trimmed text.
pub proof fn law_every_containing_line_is_a_hit(ls: Seq<Seq<char>>, needle: Seq<char>)
    ensures
        forall|k: int|
            0 <= k < ls.len() && (exists|p: Seq<char>, q: Seq<char>| unicode::lowercase_text(#[trigger] ls[k])
                == p + needle + q) ==> search::line_hits(ls, needle).contains((k + 1, text::trim(ls[k]))),
    decreases ls.len(),
{
    if ls.len() > 0 {
        let d = ls.drop_last();
        law_every_containing_line_is_a_hit(d, needle);
        let h = search::line_hits(d, needle);
        let m = search::line_hits(ls, needle);
        assert forall|k: int|
            0 <= k < ls.len() && (exists|p: Seq<char>, q: Seq<char>| unicode::lowercase_text(#[trigger] ls[k])
                == p + needle + q) implies m.contains((k + 1, text::trim(ls[k]))) by {
            law_contains_text_occurrence(unicode::lowercase_text(ls[k]), needle);
            if k < ls.len() - 1 {
                assert(d[k] == ls[k]);
                assert(h.contains((k + 1, text::trim(d[k]))));
                let w = choose|w: int| 0 <= w < h.len() && h[w] == (k + 1, text::trim(d[k]));
                if m.len() > h.len() {
                    assert(m == h.push((ls.len() as int, text::trim(ls.last()))));
                    assert(m[w] == h[w]);
                } else {
                    assert(m == h);
                }
            } else {
                assert(ls.last() == ls[k]);
                assert(m == h.push((ls.len() as int, text::trim(ls.last()))));
                assert(m[h.len() as int] == (k + 1, text::trim(ls[k])));
            }
        }
    }
}

/// Within a folder of the overview, memos are listed by day: in every order
/// that the grouping may list the memos in (positions `p` that cover them,
/// in the listing order), a memo of a strictly earlier day comes before a
/// memo of a later day of the same `(year, week)` folder, whatever their
/// titles; and a memo of an earlier folder comes before one of a later
/// folder.
pub proof fn law_listing_puts_earlier_days_first(ms: Seq<memo::Memo>, p: Seq<usize>)
    requires
        order::covers(p, ms.len() as int),
        order::ordered(p, overview::listing(ms)),
    ensures
        forall|x: int, y: int|
            0 <= x < p.len() && 0 <= y < p.len() && (#[trigger] overview::at_positions(ms, p)[x]).year
                == (#[trigger] overview::at_positions(ms, p)[y]).year && overview::at_positions(ms, p)[x].week
                == overview::at_positions(ms, p)[y].week && !overview::at_positions(ms, p)[y].date.le(
                overview::at_positions(ms, p)[x].date,
            ) ==> x < y,
        forall|x: int, y: int|
            0 <= x < p.len() && 0 <= y < p.len() && ((#[trigger] overview::at_positions(ms, p)[x]).year
                < (#[trigger] overview::at_positions(ms, p)[y]).year || (overview::at_positions(ms, p)[x].year
                == overview::at_positions(ms, p)[y].year && overview::at_positions(ms, p)[x].week
                < overview::at_positions(ms, p)[y].week)) ==> x < y,
{
    let l = overview::at_positions(ms, p);
    assert forall|x: int, y: int|
        0 <= x < p.len() && 0 <= y < p.len() && (#[trigger] l[x]).year == (#[trigger] l[y]).year && l[x].week
            == l[y].week && !l[y].date.le(l[x].date) implies x < y by {
        assert(l[x] == ms[p[x] as int] && l[y] == ms[p[y] as int]);
        if y < x {
            assert(overview::listing(ms)(p[y] as int, p[x] as int));
        }
    }
    assert forall|x: int, y: int|
        0 <= x < p.len() && 0 <= y < p.len() && ((#[trigger] l[x]).year < (#[trigger] l[y]).year || (l[x].year
            == l[y].year && l[x].week < l[y].week)) implies x < y by {
        assert(l[x] == ms[p[x] as int] && l[y] == ms[p[y] as int]);
        if y < x {
            assert(overview::listing(ms)(p[y] as int, p[x] as int));
        }
    }
}

/// The tag filter keeps a memo in the date range that carries a wanted tag
/// at any position of its tags, ASCII case aside (an equal tag included),
/// and keeps a memo only when it is in the range and, if tags are wanted,
/// one of its tags is one of them.
pub proof fn law_tag_filter_keeps_any_carrier(
    m: memo::Memo,
    after: Option<Date>,
    before: Option<Date>,
    wanted: Seq<Seq<char>>,
)
    ensures
        forall|i: int, j: int|
            0 <= i < m.tags.len() && 0 <= j < wanted.len() && (after matches Some(a) ==> a.le(m.date)) && (
            before matches Some(b) ==> m.date.le(b)) && (#[trigger] wanted[j] == #[trigger] m.tags.deep_view()[i]
                || util::same_ignoring_ascii_case(wanted[j], m.tags.deep_view()[i])) ==> util::selected(
                m,
                after,
                before,
                wanted,
            ),
        util::selected(m, after, before, wanted) ==> (after matches Some(a) ==> a.le(m.date)) && (
        before matches Some(b) ==> m.date.le(b)) && (wanted.len() == 0 || exists|i: int, j: int|
            0 <= i < m.tags.len() && 0 <= j < wanted.len() && util::same_ignoring_ascii_case(
                #[trigger] wanted[j],
                #[trigger] m.tags.deep_view()[i],
            )),
{
    let mine = m.tags.deep_view();
    assert forall|i: int, j: int|
        0 <= i < m.tags.len() && 0 <= j < wanted.len() && (after matches Some(a) ==> a.le(m.date)) && (
        before matches Some(b) ==> m.date.le(b)) && (#[trigger] wanted[j] == #[trigger] m.tags.deep_view()[i]
            || util::same_ignoring_ascii_case(wanted[j], m.tags.deep_view()[i])) implies util::selected(
        m,
        after,
        before,
        wanted,
    ) by {
        assert(util::same_ignoring_ascii_case(wanted[j], mine[i]));
        assert(util::has_any_tag(mine, wanted));
    }
}

/// A character of the title lowered: one of the characters of
/// `char::to_lowercase` of an alphanumeric character of `t`.
pub open spec fn lowered_from(t: Seq<char>, ch: char) -> bool {
    exists|i: int, j: int|
        #![trigger unicode::lowercase(t[i])[j]]
        0 <= i < t.len() && unicode::is_alphanumeric(t[i]) && 0 <= j < unicode::lowercase(t[i]).len()
            && unicode::lowercase(t[i])[j] == ch
}

proof fn lemma_collapse_chars(t: Seq<char>)
    ensures
        forall|k: int|
            0 <= k < memo::collapse(t).len() ==> #[trigger] memo::collapse(t)[k] == '-' || lowered_from(
                t,
                memo::collapse(t)[k],
            ),
    decreases t.len(),
{
    if t.len() > 0 {
        let d = t.drop_last();
        lemma_collapse_chars(d);
        let cd = memo::collapse(d);
        let c = memo::collapse(t);
        let last = t[t.len() - 1];
        assert(t.last() == last);
        assert forall|k: int| 0 <= k < c.len() implies #[trigger] c[k] == '-' || lowered_from(t, c[k]) by {
            if k < cd.len() {
                assert(c[k] == cd[k]);
                if cd[k] != '-' {
                    assert(lowered_from(d, cd[k]));
                    let (i, j) = choose|i: int, j: int|
                        #![trigger unicode::lowercase(d[i])[j]]
                        0 <= i < d.len() && unicode::is_alphanumeric(d[i]) && 0 <= j < unicode::lowercase(
                            d[i],
                        ).len() && unicode::lowercase(d[i])[j] == cd[k];
                    assert(d[i] == t[i]);
                    assert(unicode::lowercase(t[i])[j] == c[k]);
                }
            } else if unicode::is_alphanumeric(last) {
                assert(c == cd + unicode::lowercase(last));
                let j = k - cd.len();
                assert(unicode::lowercase(t[t.len() - 1])[j] == c[k]);
            }
        }
    }
}

/// A slug is made of lowered characters: every character of the slug of a
/// title is `-` or a character of `char::to_lowercase` of an alphanumeric
/// character of the title; none is left as it was unless lowering keeps it.
pub proof fn law_slug_is_lowered(t: Seq<char>)
    ensures
        forall|k: int|
            0 <= k < memo::slug_of(t).len() ==> #[trigger] memo::slug_of(t)[k] == '-' || lowered_from(
                t,
                memo::slug_of(t)[k],
            ),
{
    let c = memo::collapse(t);
    let dash = text::CharClass::Dash;
    lemma_collapse_chars(t);
    text::lemma_trail_run_bound(c, dash);
    let e = text::trim_end_by(c, dash);
    text::lemma_lead_run_bound(e, dash);
    let s = memo::slug_of(t);
    let l = text::lead_run(e, dash) as int;
    assert forall|k: int| 0 <= k < s.len() implies #[trigger] s[k] == '-' || lowered_from(t, s[k]) by {
        assert(s[k] == e[l + k]);
        assert(e[l + k] == c[l + k]);
    }
}

/// A title of alphanumeric characters only slugs to its characters, each
/// lowered as `char::to_lowercase` does, in order (with `-` trimmed from the
/// ends).
pub proof fn law_alphanumeric_title_slug(t: Seq<char>)
    requires
        forall|i: int| 0 <= i < t.len() ==> unicode::is_alphanumeric(#[trigger] t[i]),
    ensures
        memo::collapse(t) == t.map_values(|c: char| unicode::lowercase(c)).flatten(),
        memo::slug_of(t) == text::trim_by(
            t.map_values(|c: char| unicode::lowercase(c)).flatten(),
            text::CharClass::Dash,
        ),
    decreases t.len(),
{
    if t.len() > 0 {
        let d = t.drop_last();
        assert forall|i: int| 0 <= i < d.len() implies unicode::is_alphanumeric(#[trigger] d[i]) by {
            assert(d[i] == t[i]);
        }
        law_alphanumeric_title_slug(d);
        let last = t[t.len() - 1];
        assert(t.last() == last);
        assert(unicode::is_alphanumeric(last));
        let md = d.map_values(|c: char| unicode::lowercase(c));
        let mt = t.map_values(|c: char| unicode::lowercase(c));
        assert(mt =~= md + seq![unicode::lowercase(last)]);
        vstd::seq_lib::lemma_flatten_concat(md, seq![unicode::lowercase(last)]);
        seq![unicode::lowercase(last)].lemma_flatten_singleton();
    } else {
        assert(t.map_values(|c: char| unicode::lowercase(c)) =~= Seq::<Seq<char>>::empty());
        assert(Seq::<Seq<char>>::empty().flatten() =~= Seq::<char>::empty());
        assert(memo::collapse(t) =~= Seq::<char>::empty());
    }
}

/// The keys of two lists of tags together are the keys of either list.
proof fn lemma_drop_keys_concat(a: Seq<Seq<char>>, b: Seq<Seq<char>>, x: Seq<char>)
    ensures
        store::drop_keys(a + b).contains(x) <==> store::drop_keys(a).contains(x) || store::drop_keys(b).contains(x),
{
    let ab = a + b;
    lemma_drop_keys(ab, x);
    lemma_drop_keys(a, x);
    lemma_drop_keys(b, x);
    if store::drop_keys(ab).contains(x) {
        let i = choose|i: int| 0 <= i < ab.len() && unicode::lowercase_text(text::trim(#[trigger] ab[i])) == x;
        if i < a.len() {
            assert(ab[i] == a[i]);
        } else {
            assert(ab[i] == b[i - a.len()]);
        }
    }
    if store::drop_keys(a).contains(x) {
        let i = choose|i: int| 0 <= i < a.len() && unicode::lowercase_text(text::trim(#[trigger] a[i])) == x;
        assert(ab[i] == a[i]);
    }
    if store::drop_keys(b).contains(x) {
        let i = choose|i: int| 0 <= i < b.len() && unicode::lowercase_text(text::trim(#[trigger] b[i])) == x;
        assert(ab[i + a.len()] == b[i]);
    }
}

proof fn lemma_kept_in_steps(e: Seq<Seq<char>>, a: Seq<Seq<char>>, b: Seq<Seq<char>>)
    ensures
        store::tags_kept(e, store::drop_keys(a + b)) == store::tags_kept(
            store::tags_kept(e, store::drop_keys(a)),
            store::drop_keys(b),
        ),
    decreases e.len(),
{
    if e.len() > 0 {
        let d = e.drop_last();
        lemma_kept_in_steps(d, a, b);
        let x = unicode::lowercase_text(e.last());
        lemma_drop_keys_concat(a, b, x);
        let ka = store::tags_kept(d, store::drop_keys(a));
        if !store::drop_keys(a).contains(x) {
            let pushed = ka.push(e.last());
            assert(pushed.drop_last() =~= ka);
            assert(pushed.last() == e.last());
        }
    }
}

/// Untagging a list of tags is untagging its first part and then the rest:
/// `untag(untag(m, a), b)` keeps the same tags as `untag(m, a + b)`.
pub proof fn law_untag_in_steps(existing: Seq<Seq<char>>, a: Seq<Seq<char>>, b: Seq<Seq<char>>)
    ensures
        store::tags_kept(existing, store::drop_keys(a + b)) == store::tags_kept(
            store::tags_kept(existing, store::drop_keys(a)),
            store::drop_keys(b),
        ),
{
    lemma_kept_in_steps(existing, a, b);
}

/// Every hit of a search is a line that holds the lowered query: its number
/// names a line of the body whose lowered text is the query with text before
/// and after it, and its text is that line trimmed.
pub proof fn law_every_hit_holds_the_query(ls: Seq<Seq<char>>, needle: Seq<char>)
    ensures
        forall|w: int|
            0 <= w < search::line_hits(ls, needle).len() ==> ({
                let h = #[trigger] search::line_hits(ls, needle)[w];
                &&& 1 <= h.0 <= ls.len()
                &&& h.1 == text::trim(ls[h.0 - 1])
                &&& exists|p: Seq<char>, q: Seq<char>| unicode::lowercase_text(ls[h.0 - 1]) == p + needle + q
            }),
    decreases ls.len(),
{
    if ls.len() > 0 {
        let d = ls.drop_last();
        law_every_hit_holds_the_query(d, needle);
        let h = search::line_hits(d, needle);
        let m = search::line_hits(ls, needle);
        assert forall|w: int| 0 <= w < m.len() implies ({
            let x = #[trigger] m[w];
            &&& 1 <= x.0 <= ls.len()
            &&& x.1 == text::trim(ls[x.0 - 1])
            &&& exists|p: Seq<char>, q: Seq<char>| unicode::lowercase_text(ls[x.0 - 1]) == p + needle + q
        }) by {
            if w < h.len() {
                assert(m[w] == h[w]);
                assert(d[h[w].0 - 1] == ls[h[w].0 - 1]);
            } else {
                assert(m == h.push((ls.len() as int, text::trim(ls.last()))));
                assert(ls.last() == ls[ls.len() - 1]);
                law_contains_text_occurrence(unicode::lowercase_text(ls.last()), needle);
            }
        }
    }
}

/// Within a folder, memos of the same day are listed by title (as `str`
/// orders text): a smaller title first.
pub proof fn law_listing_same_day_by_title(ms: Seq<memo::Memo>, p: Seq<usize>)
    requires
        order::covers(p, ms.len() as int),
        order::ordered(p, overview::listing(ms)),
    ensures
        forall|x: int, y: int|
            0 <= x < p.len() && 0 <= y < p.len() && (#[trigger] overview::at_positions(ms, p)[x]).year
                == (#[trigger] overview::at_positions(ms, p)[y]).year && overview::at_positions(ms, p)[x].week
                == overview::at_positions(ms, p)[y].week && overview::at_positions(ms, p)[x].date
                == overview::at_positions(ms, p)[y].date && order::text_lt(
                overview::at_positions(ms, p)[x].title@,
                overview::at_positions(ms, p)[y].title@,
            ) ==> x < y,
{
    let l = overview::at_positions(ms, p);
    assert forall|x: int, y: int|
        0 <= x < p.len() && 0 <= y < p.len() && (#[trigger] l[x]).year == (#[trigger] l[y]).year && l[x].week
            == l[y].week && l[x].date == l[y].date && order::text_lt(l[x].title@, l[y].title@) implies x < y by {
        assert(l[x] == ms[p[x] as int] && l[y] == ms[p[y] as int]);
        order::lemma_text_lt_irreflexive(l[x].title@);
        order::lemma_text_lt_irreflexive(l[y].title@);
        if y < x {
            assert(overview::listing(ms)(p[y] as int, p[x] as int));
            if order::text_lt(l[y].title@, l[x].title@) {
                order::lemma_text_lt_transitive(l[y].title@, l[x].title@, l[y].title@);
            }
        }
    }
}

/// Tags that differ only in the case of ASCII letters match: the tag filter
/// keeps a memo in the date range when one of its tags, at any position,
/// lowers as ASCII to what a wanted tag lowers to.
pub proof fn law_tag_filter_ignores_ascii_case(
    m: memo::Memo,
    after: Option<Date>,
    before: Option<Date>,
    wanted: Seq<Seq<char>>,
)
    ensures
        forall|i: int, j: int|
            0 <= i < m.tags.len() && 0 <= j < wanted.len() && (after matches Some(a) ==> a.le(m.date)) && (
            before matches Some(b) ==> m.date.le(b)) && (#[trigger] wanted[j]).map_values(
                |c: char| unicode::ascii_lower(c),
            ) == (#[trigger] m.tags.deep_view()[i]).map_values(|c: char| unicode::ascii_lower(c))
                ==> util::selected(m, after, before, wanted),
{
    let mine = m.tags.deep_view();
    assert forall|i: int, j: int|
        0 <= i < m.tags.len() && 0 <= j < wanted.len() && (after matches Some(a) ==> a.le(m.date)) && (
        before matches Some(b) ==> m.date.le(b)) && (#[trigger] wanted[j]).map_values(
            |c: char| unicode::ascii_lower(c),
        ) == (#[trigger] m.tags.deep_view()[i]).map_values(|c: char| unicode::ascii_lower(c))
            implies util::selected(m, after, before, wanted) by {
        let w = wanted[j];
        let t = mine[i];
        assert(w.len() == t.len()) by {
            assert(w.map_values(|c: char| unicode::ascii_lower(c)).len() == w.len());
        }
        assert forall|k: int| 0 <= k < w.len() implies util::ascii_fold(#[trigger] w[k]) == util::ascii_fold(t[k]) by {
            assert(w.map_values(|c: char| unicode::ascii_lower(c))[k] == t.map_values(
                |c: char| unicode::ascii_lower(c),
            )[k]);
            lemma_fold_is_lower(w[k]);
            lemma_fold_is_lower(t[k]);
        }
        assert(util::same_ignoring_ascii_case(w, t));
        assert(util::has_any_tag(mine, wanted));
    }
}

/// Folding ASCII case is lowering ASCII letters.
proof fn lemma_fold_is_lower(c: char)
    ensures
        util::ascii_fold(c) == unicode::ascii_lower(c) as int,
{
    if unicode::is_ascii_upper(c) {
        let u = (c as u32) + 0x20;
        assert(0x61 <= u <= 0x7A);
        let d = unicode::ascii_lower(c);
        assert(d == u as char);
        assert(d as u32 == u);
    }
}

/// The last character of what an ASCII text collapses to, after an
/// alphanumeric character, is that character lowered, never `-`.
proof fn lemma_collapse_ends_alnum(t: Seq<char>)
    requires
        t.len() > 0,
        unicode::is_ascii(t.last()),
        unicode::is_alphanumeric(t.last()),
    ensures
        memo::collapse(t).len() > 0,
        memo::collapse(t).last() != '-',
{
    let c = memo::collapse(t);
    assert(c == memo::collapse(t.drop_last()) + seq![unicode::ascii_lower(t.last())]);
    lemma_fold_is_lower(t.last());
}

/// The slug of an ASCII title holds no two `-` in a row: each run of
/// characters that are not alphanumeric becomes one `-`.
pub proof fn law_ascii_slug_single_dashes(t: Seq<char>)
    requires
        unicode::is_ascii_text(t),
    ensures
        forall|k: int|
            0 <= k < memo::collapse(t).len() - 1 && #[trigger] memo::collapse(t)[k] == '-' ==> memo::collapse(
                t,
            )[k + 1] != '-',
        forall|k: int|
            0 <= k < memo::slug_of(t).len() - 1 && #[trigger] memo::slug_of(t)[k] == '-' ==> memo::slug_of(
                t,
            )[k + 1] != '-',
    decreases t.len(),
{
    let c = memo::collapse(t);
    if t.len() > 0 {
        let d = t.drop_last();
        assert forall|i: int| 0 <= i < d.len() implies unicode::is_ascii(#[trigger] d[i]) by {
            assert(d[i] == t[i]);
        }
        law_ascii_slug_single_dashes(d);
        let cd = memo::collapse(d);
        let last = t[t.len() - 1];
        assert(t.last() == last);
        assert(unicode::is_ascii(last));
        if unicode::is_alphanumeric(last) {
            assert(c == cd + seq![unicode::ascii_lower(last)]);
            lemma_fold_is_lower(last);
            assert forall|k: int| 0 <= k < c.len() - 1 && #[trigger] c[k] == '-' implies c[k + 1] != '-' by {
                if k + 1 < cd.len() {
                    assert(c[k] == cd[k] && c[k + 1] == cd[k + 1]);
                }
            }
        } else if t.len() > 1 && !unicode::is_alphanumeric(t[t.len() - 2]) {
            assert(c == cd);
        } else {
            assert(c == cd.push('-'));
            if t.len() > 1 {
                assert(d.last() == t[t.len() - 2]);
                assert(unicode::is_ascii(d.last()));
                lemma_collapse_ends_alnum(d);
                assert(cd[cd.len() - 1] == cd.last());
            }
            assert forall|k: int| 0 <= k < c.len() - 1 && #[trigger] c[k] == '-' implies c[k + 1] != '-' by {
                if k + 1 < cd.len() {
                    assert(c[k] == cd[k] && c[k + 1] == cd[k + 1]);
                } else {
                    assert(c[k] == cd[k]);
                }
            }
        }
    }
    let dash = text::CharClass::Dash;
    text::lemma_trail_run_bound(c, dash);
    let e = text::trim_end_by(c, dash);
    text::lemma_lead_run_bound(e, dash);
    let s = memo::slug_of(t);
    let l = text::lead_run(e, dash) as int;
    assert forall|k: int| 0 <= k < s.len() - 1 && #[trigger] s[k] == '-' implies s[k + 1] != '-' by {
        assert(s[k] == c[l + k]);
        assert(s[k + 1] == c[l + k + 1]);
    }
}

} // verus!
