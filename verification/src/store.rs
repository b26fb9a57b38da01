//! What the operations on the memo tree compute: the template of a new memo,
//! the new contents of a memo whose tags or body change, the tag counts over
//! all memos, and the paths that renaming, expanding and deleting act on.
//! Reading, writing and moving the files is left to the caller.
use vstd::prelude::*;
use crate::date::{self, Date};
use crate::error::StplError;
use crate::memo::{self, Memo, MemoKind};
use crate::order;
use crate::path;
use crate::text;
use crate::unicode;

verus! {

/// The initial file contents for a new memo:
///
/// ```text
/// ---
/// title: <title>
/// date: <YYYY-MM-DD>
/// tags: []
/// ---
///
/// # <title>
///
/// <content, if any>
/// ```
///
/// The content, when given, is followed by a newline unless it ends in one.
pub open spec fn template(title: Seq<char>, d: Date, content: Option<Seq<char>>) -> Seq<char> {
    let head = seq!['-', '-', '-', '\n'] + memo::title_mark() + title + seq!['\n']
        + seq!['d', 'a', 't', 'e', ':', ' '] + date::ymd_text(d.y() as int, d.m() as int, d.d() as int)
        + seq!['\n'] + seq!['t', 'a', 'g', 's', ':', ' ', '[', ']', '\n'] + seq![
        '-',
        '-',
        '-',
        '\n',
        '\n',
    ] + memo::heading_mark() + title + seq!['\n'];
    match content {
        None => head,
        Some(c) => head + seq!['\n'] + c + if c.len() > 0 && c.last() == '\n' {
            seq![]
        } else {
            seq!['\n']
        },
    }
}

/// The initial file contents for a new memo (see `template`).
#[verifier::rlimit(40)]
#[verifier::spinoff_prover]
pub fn render_template(title: &str, date: Date, content: Option<&str>) -> (r: String)
    ensures
        r@ == template(title@, date, memo::opt_str_view(content)),
{
    let mut out: Vec<char> = vec!['-', '-', '-', '\n'];
    out.push('t');
    out.push('i');
    out.push('t');
    out.push('l');
    out.push('e');
    out.push(':');
    out.push(' ');
    text::push_str(&mut out, title);
    out.push('\n');
    text::push_all(&mut out, &vec!['d', 'a', 't', 'e', ':', ' ']);
    text::push_str(&mut out, date.to_ymd_string().as_str());
    out.push('\n');
    text::push_all(&mut out, &vec!['t', 'a', 'g', 's', ':', ' ', '[', ']', '\n']);
    text::push_all(&mut out, &vec!['-', '-', '-', '\n', '\n']);
    out.push('#');
    out.push(' ');
    text::push_str(&mut out, title);
    out.push('\n');
    let ghost head = out@;
    match content {
        Some(c) => {
            out.push('\n');
            let cv = text::chars_of(c);
            text::push_all(&mut out, &cv);
            if !(cv.len() > 0 && cv[cv.len() - 1] == '\n') {
                out.push('\n');
            }
            proof {
                assert(cv@.len() > 0 ==> cv@.last() == cv@[cv.len() - 1]);
            }
        },
        None => {},
    }
    proof {
        assert(head =~= template(title@, date, None));
        assert(out@ =~= template(title@, date, memo::opt_str_view(content)));
    }
    text::string_from_chars(out.as_slice())
}

/// The tags after adding `new`: the `existing` tags in order, then each new
/// tag, trimmed, unless it is blank or already present.
pub open spec fn merged_tags(existing: Seq<Seq<char>>, new: Seq<Seq<char>>) -> Seq<Seq<char>>
    decreases new.len(),
{
    if new.len() == 0 {
        existing
    } else {
        let m = merged_tags(existing, new.drop_last());
        let t = text::trim(new.last());
        if t.len() > 0 && !m.contains(t) {
            m.push(t)
        } else {
            m
        }
    }
}

/// Whether `v` holds the text `t`.
fn contains_text(v: &Vec<String>, t: &String) -> (r: bool)
    ensures
        r == v.deep_view().contains(t@),
{
    let mut i: usize = 0;
    while i < v.len()
        invariant
            i <= v.len(),
            forall|j: int| 0 <= j < i ==> v.deep_view()[j] != t@,
        decreases v.len() - i,
    {
        if v[i] == *t {
            proof {
                assert(v.deep_view()[i as int] == t@);
            }
            return true;
        }
        i = i + 1;
    }
    false
}

/// `existing` with `new_tags` added: each new tag is trimmed, and kept unless
/// it is blank or already present (on the memo or earlier in `new_tags`).
pub fn merge_tags(existing: &Vec<String>, new_tags: &[String]) -> (r: Vec<String>)
    ensures
        r.deep_view() == merged_tags(existing.deep_view(), new_tags.deep_view()),
{
    let mut merged = memo::clone_strings(existing);
    let ghost nv = new_tags.deep_view();
    let mut i: usize = 0;
    while i < new_tags.len()
        invariant
            i <= new_tags.len(),
            nv == new_tags.deep_view(),
            merged.deep_view() == merged_tags(existing.deep_view(), nv.take(i as int)),
        decreases new_tags.len() - i,
    {
        let c = text::chars_of(new_tags[i].as_str());
        let (a, b) = text::trim_range(&c, 0, c.len());
        let t = memo::string_of_range(&c, a, b);
        proof {
            assert(c@.subrange(0, c.len() as int) =~= c@);
            assert(nv.take(i + 1).drop_last() =~= nv.take(i as int));
            assert(nv.take(i + 1).last() == new_tags@[i as int]@);
        }
        if b > a && !contains_text(&merged, &t) {
            let ghost before = merged.deep_view();
            merged.push(t);
            proof {
                assert(merged.deep_view() =~= before.push(t@));
            }
        }
        i = i + 1;
    }
    proof {
        assert(nv.take(new_tags.len() as int) =~= nv);
    }
    merged
}

/// Add `new_tags` to a memo's frontmatter `tags:` list. Existing tags are
/// kept (in order) and duplicates are ignored — both against tags already on
/// the memo and within `new_tags` itself. Blank tags are dropped. Given the
/// memo's file `content`, returns the content to write back and the
/// resulting full tag list.
pub fn add_tags(m: &Memo, content: &str, new_tags: &[String]) -> (r: (String, Vec<String>))
    ensures
        r.1.deep_view() == merged_tags(m.tags.deep_view(), new_tags.deep_view()),
        r.0@ == memo::write_tags_spec(content@, r.1.deep_view()),
{
    let merged = merge_tags(&m.tags, new_tags);
    let updated = memo::write_tags(content, merged.as_slice());
    (updated, merged)
}

/// The content after appending `text`: the content, then a newline unless
/// it ends in one, then a blank line unless the content is only whitespace,
/// then `text` without its trailing newlines, then one newline.
pub open spec fn appended(c: Seq<char>, t: Seq<char>) -> Seq<char> {
    let c1 = if c.len() > 0 && c.last() == '\n' {
        c
    } else {
        c.push('\n')
    };
    let c2 = if text::trim_end_by(c1, text::CharClass::White).len() > 0 {
        c1.push('\n')
    } else {
        c1
    };
    c2 + text::trim_end_by(t, text::CharClass::Newline) + seq!['\n']
}

/// Append `text` to a memo's body. A blank line is inserted between the
/// existing content and the new text, and the file is left ending in a
/// newline. Given the file's `content`, returns the content to write back.
pub fn append(content: &str, text: &str) -> (r: String)
    ensures
        r@ == appended(content@, text@),
        r@.len() > 0 && r@.last() == '\n',
        text::trim_end_by(text@, text::CharClass::Newline).len() > 0 ==> r@[r@.len() - 2] != '\n',
{
    let mut c = text::chars_of(content);
    if !(c.len() > 0 && c[c.len() - 1] == '\n') {
        c.push('\n');
    }
    let ghost c1 = c@;
    assert(c1 == if content@.len() > 0 && content@.last() == '\n' {
        content@
    } else {
        content@.push('\n')
    }) by {
        assert(content@.len() > 0 ==> content@.last() == content@[content@.len() - 1]);
    }
    let (a, b) = text::trim_range_by(&c, 0, c.len(), &text::CharClass::White, false, true);
    assert(c@.subrange(0, c.len() as int) =~= c@);
    if b > a {
        c.push('\n');
    }
    let ghost c2 = c@;
    let t = text::chars_of(text);
    let (x, y) = text::trim_range_by(&t, 0, t.len(), &text::CharClass::Newline, false, true);
    assert(t@.subrange(0, t.len() as int) =~= t@);
    let ghost tt = text::trim_end_by(t@, text::CharClass::Newline);
    assert(t@.subrange(x as int, y as int) == tt);
    text::push_range(&mut c, &t, x, y);
    c.push('\n');
    assert(c@ =~= c2 + tt + seq!['\n']);
    proof {
        if tt.len() > 0 {
            assert(c@[c@.len() - 2] == tt.last());
            text::lemma_trail_run_bound(t@, text::CharClass::Newline);
            assert(tt.last() == t@[t@.len() - 1 - text::trail_run(t@, text::CharClass::Newline)]);
        }
    }
    text::string_from_chars(c.as_slice())
}

/// The texts that `remove_tags` drops: each given tag trimmed and lowered,
/// without the blank ones.
pub open spec fn drop_keys(tags: Seq<Seq<char>>) -> Seq<Seq<char>>
    decreases tags.len(),
{
    if tags.len() == 0 {
        seq![]
    } else {
        let d = drop_keys(tags.drop_last());
        let k = unicode::lowercase_text(text::trim(tags.last()));
        if k.len() > 0 {
            d.push(k)
        } else {
            d
        }
    }
}

/// The tags of `ts` whose lowercase form is not among `drop`, in order.
pub open spec fn tags_kept(ts: Seq<Seq<char>>, drop: Seq<Seq<char>>) -> Seq<Seq<char>>
    decreases ts.len(),
{
    if ts.len() == 0 {
        seq![]
    } else {
        let k = tags_kept(ts.drop_last(), drop);
        if drop.contains(unicode::lowercase_text(ts.last())) {
            k
        } else {
            k.push(ts.last())
        }
    }
}

/// Remove `tags` (case-insensitive) from a memo's frontmatter. Tags not
/// present are ignored. Given the memo's file `content`, returns the content
/// to write back and the remaining tags.
pub fn remove_tags(m: &Memo, content: &str, tags: &[String]) -> (r: (String, Vec<String>))
    ensures
        r.1.deep_view() == tags_kept(m.tags.deep_view(), drop_keys(tags.deep_view())),
        r.0@ == memo::write_tags_spec(content@, r.1.deep_view()),
{
    let ghost tv = tags.deep_view();
    let mut drop: Vec<String> = Vec::new();
    let mut i: usize = 0;
    while i < tags.len()
        invariant
            i <= tags.len(),
            tv == tags.deep_view(),
            drop.deep_view() == drop_keys(tv.take(i as int)),
        decreases tags.len() - i,
    {
        let c = text::chars_of(tags[i].as_str());
        let (a, b) = text::trim_range(&c, 0, c.len());
        let t = memo::string_of_range(&c, a, b);
        let low = unicode::str_to_lowercase(t.as_str());
        let lc = text::chars_of(low.as_str());
        proof {
            assert(c@.subrange(0, c.len() as int) =~= c@);
            assert(tv.take(i + 1).drop_last() =~= tv.take(i as int));
            assert(tv.take(i + 1).last() == tags@[i as int]@);
        }
        if lc.len() > 0 {
            let ghost before = drop.deep_view();
            drop.push(low);
            proof {
                assert(drop.deep_view() =~= before.push(lc@));
            }
        }
        i = i + 1;
    }
    proof {
        assert(tv.take(tags.len() as int) =~= tv);
    }
    let ghost mv = m.tags.deep_view();
    let mut remaining: Vec<String> = Vec::new();
    let mut j: usize = 0;
    while j < m.tags.len()
        invariant
            j <= m.tags.len(),
            mv == m.tags.deep_view(),
            drop.deep_view() == drop_keys(tv),
            remaining.deep_view() == tags_kept(mv.take(j as int), drop.deep_view()),
        decreases m.tags.len() - j,
    {
        let low = unicode::str_to_lowercase(m.tags[j].as_str());
        proof {
            assert(mv.take(j + 1).drop_last() =~= mv.take(j as int));
            assert(mv.take(j + 1).last() == m.tags@[j as int]@);
        }
        if !contains_text(&drop, &low) {
            let ghost before = remaining.deep_view();
            remaining.push(m.tags[j].clone());
            proof {
                assert(remaining.deep_view() =~= before.push(m.tags@[j as int]@));
            }
        }
        j = j + 1;
    }
    proof {
        assert(mv.take(m.tags.len() as int) =~= mv);
    }
    let updated = memo::write_tags(content, remaining.as_slice());
    (updated, remaining)
}


/// Every tag occurrence of the memos `ms`, memo after memo.
pub open spec fn all_tags(ms: Seq<Memo>) -> Seq<Seq<char>>
    decreases ms.len(),
{
    if ms.len() == 0 {
        seq![]
    } else {
        all_tags(ms.drop_last()) + ms.last().tags.deep_view()
    }
}

/// How often `t` occurs in `ts`.
pub open spec fn occurrences(ts: Seq<Seq<char>>, t: Seq<char>) -> nat
    decreases ts.len(),
{
    if ts.len() == 0 {
        0
    } else {
        occurrences(ts.drop_last(), t) + if ts.last() == t {
            1nat
        } else {
            0nat
        }
    }
}

/// `(tag, count)` pairs listed before others: higher count first, then by tag.
pub open spec fn count_before(a: (Seq<char>, nat), b: (Seq<char>, nat)) -> bool {
    a.1 > b.1 || (a.1 == b.1 && order::text_lt(a.0, b.0))
}

/// The view of a tag count listing.
pub open spec fn count_view(r: Seq<(String, usize)>) -> Seq<(Seq<char>, nat)> {
    r.map_values(|p: (String, usize)| (p.0@, p.1 as nat))
}

/// `r` lists every tag that occurs in `all`, once, with the number of its
/// occurrences, sorted by count descending, then tag ascending.
pub open spec fn is_tag_count_listing(r: Seq<(Seq<char>, nat)>, all: Seq<Seq<char>>) -> bool {
    &&& forall|i: int| 0 <= i < r.len() ==> (#[trigger] r[i]).1 == occurrences(all, r[i].0) && all.contains(r[i].0)
    &&& forall|t: Seq<char>| all.contains(t) ==> exists|i: int| 0 <= i < r.len() && (#[trigger] r[i]).0 == t
    &&& forall|i: int, j: int| 0 <= i < j < r.len() ==> count_before(#[trigger] r[i], #[trigger] r[j])
}

proof fn lemma_occurrences_push(s: Seq<Seq<char>>, x: Seq<char>, t: Seq<char>)
    ensures
        occurrences(s.push(x), t) == occurrences(s, t) + if x == t {
            1nat
        } else {
            0nat
        },
        s.push(x).contains(t) <==> (s.contains(t) || x == t),
{
    assert(s.push(x).drop_last() =~= s);
    if s.push(x).contains(t) && x != t {
        let k = choose|k: int| 0 <= k < s.push(x).len() && s.push(x)[k] == t;
        assert(s[k] == t);
    }
    if s.contains(t) {
        let k = choose|k: int| 0 <= k < s.len() && s[k] == t;
        assert(s.push(x)[k] == t);
    }
    if x == t {
        assert(s.push(x)[s.len() as int] == t);
    }
}

proof fn lemma_occurrences_bound(s: Seq<Seq<char>>, t: Seq<char>)
    ensures
        occurrences(s, t) <= s.len(),
        !s.contains(t) ==> occurrences(s, t) == 0,
    decreases s.len(),
{
    if s.len() > 0 {
        lemma_occurrences_bound(s.drop_last(), t);
        if !s.contains(t) {
            if s.drop_last().contains(t) {
                let k = choose|k: int| 0 <= k < s.drop_last().len() && s.drop_last()[k] == t;
                assert(s[k] == t);
            }
            assert(s[s.len() - 1] == s.last());
        }
    }
}

proof fn lemma_all_tags_take(ms: Seq<Memo>, i: int)
    requires
        0 <= i < ms.len(),
    ensures
        all_tags(ms.take(i + 1)) == all_tags(ms.take(i)) + ms[i].tags.deep_view(),
        all_tags(ms.take(i + 1)).len() <= all_tags(ms).len(),
    decreases ms.len() - i,
{
    assert(ms.take(i + 1).drop_last() =~= ms.take(i));
    if i + 1 < ms.len() {
        lemma_all_tags_take(ms, i + 1);
    } else {
        assert(ms.take(i + 1) =~= ms);
    }
}

/// Count tag occurrences across all memos. Returns `(tag, count)` pairs sorted
/// by count descending, then tag ascending.
pub fn tag_counts(memos: &[Memo]) -> (r: Vec<(String, usize)>)
    requires
        all_tags(memos@).len() <= usize::MAX,
    ensures
        is_tag_count_listing(count_view(r@), all_tags(memos@)),
{
    let mut keys: Vec<String> = Vec::new();
    let mut counts: Vec<usize> = Vec::new();
    let ghost mut seen: Seq<Seq<char>> = seq![];
    let mut i: usize = 0;
    while i < memos.len()
        invariant
            i <= memos.len(),
            all_tags(memos@).len() <= usize::MAX,
            seen == all_tags(memos@.take(i as int)),
            seen.len() <= all_tags(memos@).len(),
            keys.len() == counts.len(),
            forall|k: int| 0 <= k < keys.len() ==> counts@[k] == occurrences(seen, #[trigger] keys@[k]@) && seen.contains(keys@[k]@),
            forall|k1: int, k2: int| 0 <= k1 < k2 < keys.len() ==> #[trigger] keys@[k1]@ != #[trigger] keys@[k2]@,
            forall|t: Seq<char>| seen.contains(t) ==> exists|k: int| 0 <= k < keys.len() && #[trigger] keys@[k]@ == t,
        decreases memos.len() - i,
    {
        let tags = &memos[i].tags;
        let ghost tv = tags.deep_view();
        let ghost base = seen;
        proof {
            lemma_all_tags_take(memos@, i as int);
            assert(memos@.take(i as int).len() == i);
        }
        let mut j: usize = 0;
        while j < tags.len()
            invariant
                j <= tags.len(),
                tv == tags.deep_view(),
                all_tags(memos@).len() <= usize::MAX,
                base.len() + tv.len() <= all_tags(memos@).len(),
                seen == base + tv.take(j as int),
                keys.len() == counts.len(),
                forall|k: int| 0 <= k < keys.len() ==> counts@[k] == occurrences(seen, #[trigger] keys@[k]@) && seen.contains(keys@[k]@),
                forall|k1: int, k2: int| 0 <= k1 < k2 < keys.len() ==> #[trigger] keys@[k1]@ != #[trigger] keys@[k2]@,
                forall|t: Seq<char>| seen.contains(t) ==> exists|k: int| 0 <= k < keys.len() && #[trigger] keys@[k]@ == t,
            decreases tags.len() - j,
        {
            let t = &tags[j];
            let ghost x = t@;
            let mut k: usize = 0;
            while k < keys.len() && keys[k] != *t
                invariant
                    k <= keys.len(),
                    forall|m: int| 0 <= m < k ==> keys@[m]@ != x,
                    x == t@,
                decreases keys.len() - k,
            {
                k = k + 1;
            }
            proof {
                lemma_occurrences_bound(seen, x);
                assert(seen.len() < base.len() + tv.len()) by {
                    assert(seen.len() == base.len() + j);
                }
                assert(tv[j as int] == x);
                assert(base + tv.take(j + 1) =~= seen.push(x));
            }
            let ghost old_keys = keys@;
            let ghost old_counts = counts@;
            let ghost old_seen = seen;
            if k < keys.len() {
                let n = counts[k];
                counts.set(k, n + 1);
                proof {
                    seen = seen.push(x);
                    assert forall|m: int| 0 <= m < keys.len() implies counts@[m] == occurrences(seen, #[trigger] keys@[m]@) && seen.contains(keys@[m]@) by {
                        lemma_occurrences_push(old_seen, x, keys@[m]@);
                    }
                    assert forall|u: Seq<char>| seen.contains(u) implies exists|m: int| 0 <= m < keys.len() && #[trigger] keys@[m]@ == u by {
                        lemma_occurrences_push(old_seen, x, u);
                        if u == x {
                            assert(keys@[k as int]@ == u);
                        }
                    }
                }
            } else {
                keys.push(t.clone());
                counts.push(1);
                proof {
                    seen = seen.push(x);
                    assert(!old_seen.contains(x));
                    lemma_occurrences_bound(old_seen, x);
                    assert forall|m: int| 0 <= m < keys.len() implies counts@[m] == occurrences(seen, #[trigger] keys@[m]@) && seen.contains(keys@[m]@) by {
                        lemma_occurrences_push(old_seen, x, keys@[m]@);
                        if m < old_keys.len() {
                            assert(keys@[m] == old_keys[m]);
                        }
                    }
                    assert forall|k1: int, k2: int| 0 <= k1 < k2 < keys.len() implies #[trigger] keys@[k1]@ != #[trigger] keys@[k2]@ by {
                        if k2 < old_keys.len() {
                            assert(keys@[k1] == old_keys[k1]);
                            assert(keys@[k2] == old_keys[k2]);
                        } else {
                            assert(keys@[k1] == old_keys[k1]);
                        }
                    }
                    assert forall|u: Seq<char>| seen.contains(u) implies exists|m: int| 0 <= m < keys.len() && #[trigger] keys@[m]@ == u by {
                        lemma_occurrences_push(old_seen, x, u);
                        if u == x {
                            assert(keys@[old_keys.len() as int]@ == u);
                        } else {
                            let m0 = choose|m: int| 0 <= m < old_keys.len() && #[trigger] old_keys[m]@ == u;
                            assert(keys@[m0] == old_keys[m0]);
                        }
                    }
                }
            }
            j = j + 1;
        }
        proof {
            assert(tv.take(tags.len() as int) =~= tv);
        }
        i = i + 1;
    }
    proof {
        assert(memos@.take(memos.len() as int) =~= memos@);
    }
    // Sort the counted tags.
    let n = keys.len();
    let mut kc: Vec<Vec<char>> = Vec::new();
    let mut m: usize = 0;
    while m < n
        invariant
            m <= n == keys.len(),
            kc.len() == m,
            forall|q: int| 0 <= q < m ==> #[trigger] kc@[q]@ == keys@[q]@,
        decreases n - m,
    {
        kc.push(text::chars_of(keys[m].as_str()));
        m = m + 1;
    }
    let ghost kv = keys@.map_values(|s: String| s@);
    let ghost cv = counts@;
    let ghost before = |a: int, b: int| count_before((kv[a], cv[a] as nat), (kv[b], cv[b] as nat));
    proof {
        assert forall|a: int| 0 <= a < n implies !#[trigger] before(a, a) by {
            order::lemma_text_lt_irreflexive(kv[a]);
        }
        assert forall|a: int, b: int, c: int|
            0 <= a < n && 0 <= b < n && 0 <= c < n && #[trigger] before(a, b) && #[trigger] before(b, c) implies before(a, c) by {
            if cv[a] == cv[b] && cv[b] == cv[c] {
                order::lemma_text_lt_transitive(kv[a], kv[b], kv[c]);
            }
        }
        assert forall|a: int, b: int| 0 <= a < n && 0 <= b < n && a != b implies #[trigger] before(a, b) || before(b, a) by {
            order::lemma_text_lt_total(kv[a], kv[b]);
            if a < b {
                assert(keys@[a]@ != keys@[b]@);
            } else {
                assert(keys@[b]@ != keys@[a]@);
            }
        }
    }
    let decide = |a: usize, b: usize| -> (r: bool)
        requires
            a < n,
            b < n,
        ensures
            r == before(a as int, b as int),
        { counts[a] > counts[b] || (counts[a] == counts[b] && order::text_less(&kc[a], &kc[b])) };
    let ord = order::sort_positions(n, &decide, Ghost(before));
    let mut r: Vec<(String, usize)> = Vec::new();
    let mut a: usize = 0;
    while a < n
        invariant
            a <= n == keys.len() == counts.len(),
            order::covers(ord@, n as int),
            order::ordered(ord@, before),
            r.len() == a,
            kv == keys@.map_values(|s: String| s@),
            cv == counts@,
            forall|q: int| 0 <= q < a ==> #[trigger] r@[q].0@ == kv[ord@[q] as int] && r@[q].1 == cv[ord@[q] as int],
        decreases n - a,
    {
        let p = ord[a];
        assert(ord@.contains(p) ==> true);
        assert(p < n);
        let key = keys[p].clone();
        let ghost before_r = r@;
        r.push((key, counts[p]));
        proof {
            assert(kv[p as int] == keys@[p as int]@);
            assert forall|q: int| 0 <= q < a + 1 implies #[trigger] r@[q].0@ == kv[ord@[q] as int] && r@[q].1 == cv[ord@[q] as int] by {
                if q < a {
                    assert(r@[q] == before_r[q]);
                }
            }
        }
        a = a + 1;
    }
    proof {
        let rv = count_view(r@);
        let all = all_tags(memos@);
        assert forall|q: int| 0 <= q < rv.len() implies (#[trigger] rv[q]).1 == occurrences(all, rv[q].0) && all.contains(rv[q].0) by {
            assert(rv[q] == (r@[q].0@, r@[q].1 as nat));
            let p = ord@[q] as int;
            assert(keys@[p]@ == kv[p]);
        }
        assert forall|t: Seq<char>| all.contains(t) implies exists|q: int| 0 <= q < rv.len() && (#[trigger] rv[q]).0 == t by {
            let k = choose|k: int| 0 <= k < keys.len() && #[trigger] keys@[k]@ == t;
            assert(ord@.contains(k as usize));
            let q = choose|q: int| 0 <= q < ord@.len() && ord@[q] == k as usize;
            assert(rv[q] == (r@[q].0@, r@[q].1 as nat));
            assert(kv[k] == keys@[k]@);
        }
        assert forall|q1: int, q2: int| 0 <= q1 < q2 < rv.len() implies count_before(#[trigger] rv[q1], #[trigger] rv[q2]) by {
            assert(rv[q1] == (r@[q1].0@, r@[q1].1 as nat));
            assert(rv[q2] == (r@[q2].0@, r@[q2].1 as nat));
            assert(before(ord@[q1] as int, ord@[q2] as int));
        }
    }
    r
}


/// An error of a store operation: a domain error, or a plain message.
#[derive(Debug)]
pub enum StoreError {
    Stpl(StplError),
    Message(String),
}

/// What renaming a memo does: the memo's title is rewritten in place, and
/// when `moves`, `source` (the memo file, or the project directory) is moved
/// to `target`, which must not exist yet.
#[derive(Debug)]
pub struct RenamePlan {
    /// The slug of the new title.
    pub new_slug: String,
    /// What is moved: the memo file, or the whole project directory.
    pub source: String,
    /// Where it goes: `<iso_date>-<new_slug>.md`, or `<iso_date>-<new_slug>/`,
    /// beside it.
    pub target: String,
    /// Whether the target differs from the source.
    pub moves: bool,
    /// The memo's `.md` path after the rename.
    pub new_path: String,
}

/// `"memo file has no parent directory"`.
pub open spec fn no_parent_msg() -> Seq<char> {
    "memo file has no parent directory"@
}

/// `"project memo has no parent directory"`.
pub open spec fn no_project_parent_msg() -> Seq<char> {
    "project memo has no parent directory"@
}

/// `"project directory has no parent"`.
pub open spec fn no_grandparent_msg() -> Seq<char> {
    "project directory has no parent"@
}

/// `"memo file has no stem"`.
pub open spec fn no_stem_msg() -> Seq<char> {
    "memo file has no stem"@
}

/// The error `e` carries the message `msg`.
pub open spec fn is_message(e: StoreError, msg: Seq<char>) -> bool {
    e matches StoreError::Message(s) && s@ == msg
}

/// Plan the rename of a memo to `new_title`: re-slug, and move the file — or,
/// for a project, the whole project directory — to its new
/// `<iso_date>-<new_slug>` name beside it. The `<year>/<week>` folder (and a
/// project's date prefix) are unchanged.
///
/// Errors with `InvalidTitle` when the new title has no slug, and with a
/// message when the memo's path has no parent (or, for a project, its
/// directory has none).
pub fn rename(m: &Memo, new_title: &str) -> (r: Result<RenamePlan, StoreError>)
    ensures
        forall|dir: Seq<char>, d: Date, slug: Seq<char>|
            m.kind == MemoKind::File && m.date == d && memo::plain_slug(memo::slug_of(new_title@))
                && #[trigger] memo::written_at(m.path@, dir, d, slug) ==> (r matches Ok(p) && p.new_path@
                == memo::memo_path_of(dir, d, memo::slug_of(new_title@))),
        forall|dir: Seq<char>, d: Date, slug: Seq<char>|
            m.kind == MemoKind::Project && m.date == d && memo::plain_slug(memo::slug_of(new_title@))
                && #[trigger] memo::project_written_at(m.path@, dir, d, slug) ==> (r matches Ok(p)
                && p.new_path@ == memo::project_path_of(dir, d, memo::slug_of(new_title@))),
        slug_of_is_empty(new_title@) ==> (r matches Err(e) && (e matches StoreError::Stpl(
            StplError::InvalidTitle(t),
        ) && t@ == new_title@)),
        !slug_of_is_empty(new_title@) ==> match m.kind {
            MemoKind::File => match path::path_parent(m.path@) {
                None => r matches Err(e) && is_message(e, no_parent_msg()),
                Some(dir) => r matches Ok(p) && {
                    let target = path::join_path(
                        dir,
                        memo::stem_of(m.date, memo::slug_of(new_title@)) + seq!['.', 'm', 'd'],
                    );
                    &&& p.new_slug@ == memo::slug_of(new_title@)
                    &&& p.source@ == m.path@
                    &&& p.target@ == target
                    &&& p.moves == !path::same_path(target, m.path@)
                    &&& p.new_path@ == target
                },
            },
            MemoKind::Project => match path::path_parent(m.path@) {
                None => r matches Err(e) && is_message(e, no_project_parent_msg()),
                Some(dir) => match path::path_parent(dir) {
                    None => r matches Err(e) && is_message(e, no_grandparent_msg()),
                    Some(up) => r matches Ok(p) && {
                        let target = path::join_path(
                            up,
                            memo::stem_of(m.date, memo::slug_of(new_title@)),
                        );
                        &&& p.new_slug@ == memo::slug_of(new_title@)
                        &&& p.source@ == dir
                        &&& p.target@ == target
                        &&& p.moves == !path::same_path(target, dir)
                        &&& p.new_path@ == path::join_path(target, memo::project_md())
                    },
                },
            },
        },
{
    let new_slug = match memo::slugify(new_title) {
        Ok(s) => s,
        Err(e) => return Err(StoreError::Stpl(e)),
    };
    let new_stem = memo::stem_for(m.date, new_slug.as_str());
    match m.kind {
        MemoKind::File => {
            let dir = match path::parent(m.path.as_str()) {
                Some(d) => d,
                None => {
                    proof {
                        assert forall|dr: Seq<char>, d: Date, slug: Seq<char>|
                            #[trigger] memo::written_at(m.path@, dr, d, slug) implies false by {
                            memo::lemma_written_dir(m.path@, dr, d, slug);
                        }
                    }
                    return Err(StoreError::Message("memo file has no parent directory".to_string()));
                },
            };
            proof {
                assert forall|dr: Seq<char>, d: Date, slug: Seq<char>|
                    #[trigger] memo::written_at(m.path@, dr, d, slug) implies dir@ == memo::dir_of(dr, d) by {
                    memo::lemma_written_dir(m.path@, dr, d, slug);
                }
            }
            let mut name = text::chars_of(new_stem.as_str());
            name.push('.');
            name.push('m');
            name.push('d');
            let mut t = text::chars_of(dir.as_str());
            path::push_component(&mut t, &name);
            let target = text::string_from_chars(t.as_slice());
            let moves = !path::paths_equal(target.as_str(), m.path.as_str());
            let new_path = target.clone();
            Ok(RenamePlan { new_slug, source: m.path.clone(), target, moves, new_path })
        },
        MemoKind::Project => {
            let dir = match path::parent(m.path.as_str()) {
                Some(d) => d,
                None => {
                    proof {
                        assert forall|dr: Seq<char>, d: Date, slug: Seq<char>|
                            #[trigger] memo::project_written_at(m.path@, dr, d, slug) implies false by {
                            memo::lemma_project_dir(m.path@, dr, d, slug);
                        }
                    }
                    return Err(StoreError::Message("project memo has no parent directory".to_string()));
                },
            };
            let up = match path::parent(dir.as_str()) {
                Some(u) => u,
                None => {
                    proof {
                        assert forall|dr: Seq<char>, d: Date, slug: Seq<char>|
                            #[trigger] memo::project_written_at(m.path@, dr, d, slug) implies false by {
                            memo::lemma_project_dir(m.path@, dr, d, slug);
                        }
                    }
                    return Err(StoreError::Message("project directory has no parent".to_string()));
                },
            };
            proof {
                assert forall|dr: Seq<char>, d: Date, slug: Seq<char>|
                    #[trigger] memo::project_written_at(m.path@, dr, d, slug) implies up@ == memo::dir_of(dr, d) by {
                    memo::lemma_project_dir(m.path@, dr, d, slug);
                }
            }
            let target = path::join(up.as_str(), new_stem.as_str());
            let moves = !path::paths_equal(target.as_str(), dir.as_str());
            let new_path = path::join(target.as_str(), "project.md");
            proof {
                reveal_strlit("project.md");
            }
            Ok(RenamePlan { new_slug, source: dir, target, moves, new_path })
        },
    }
}

/// The title has no slug.
pub open spec fn slug_of_is_empty(t: Seq<char>) -> bool {
    memo::slug_of(t).len() == 0
}

/// Where expanding a file memo puts it: the project directory `<stem>/`
/// beside the file, and `project.md` inside it.
#[derive(Debug)]
pub struct ExpandPlan {
    pub project_dir: String,
    pub target: String,
}

/// `"'<title>' is already a project"`.
pub open spec fn already_project_msg(title: Seq<char>) -> Seq<char> {
    seq!['\''] + title + "' is already a project"@
}

/// Plan the expansion of a file memo into a project: `<stem>/` next to the
/// file, with the file moved into it as `project.md`. Refuses a memo that is
/// already a project, and one whose path has no parent or no stem.
pub fn expand(m: &Memo) -> (r: Result<ExpandPlan, StoreError>)
    ensures
        m.kind == MemoKind::Project ==> (r matches Err(e) && is_message(e, already_project_msg(m.title@))),
        m.kind == MemoKind::File ==> match path::path_parent(m.path@) {
            None => r matches Err(e) && is_message(e, no_parent_msg()),
            Some(dir) => match path::path_file_stem(m.path@) {
                None => r matches Err(e) && is_message(e, no_stem_msg()),
                Some(stem) => r matches Ok(p) && {
                    &&& p.project_dir@ == path::join_path(dir, stem)
                    &&& p.target@ == path::join_path(path::join_path(dir, stem), memo::project_md())
                },
            },
        },
        forall|dir: Seq<char>, d: Date, slug: Seq<char>|
            m.kind == MemoKind::File && #[trigger] memo::written_at(m.path@, dir, d, slug) ==> (r matches Ok(p)
                && p.target@ == memo::project_path_of(dir, d, slug)),
{
    if m.kind == MemoKind::Project {
        let mut v: Vec<char> = vec!['\''];
        text::push_str(&mut v, m.title.as_str());
        text::push_str(&mut v, "' is already a project");
        assert(v@ =~= already_project_msg(m.title@));
        return Err(StoreError::Message(text::string_from_chars(v.as_slice())));
    }
    let dir = match path::parent(m.path.as_str()) {
        Some(d) => d,
        None => {
            proof {
                assert forall|dr: Seq<char>, d: Date, slug: Seq<char>|
                    #[trigger] memo::written_at(m.path@, dr, d, slug) implies false by {
                    memo::lemma_written_dir(m.path@, dr, d, slug);
                }
            }
            return Err(StoreError::Message("memo file has no parent directory".to_string()));
        },
    };
    let stem = match path::file_stem(m.path.as_str()) {
        Some(s) => s,
        None => {
            proof {
                assert forall|dr: Seq<char>, d: Date, slug: Seq<char>|
                    #[trigger] memo::written_at(m.path@, dr, d, slug) implies false by {
                    memo::lemma_written_dir(m.path@, dr, d, slug);
                }
            }
            return Err(StoreError::Message("memo file has no stem".to_string()));
        },
    };
    let project_dir = path::join(dir.as_str(), stem.as_str());
    let target = path::join(project_dir.as_str(), "project.md");
    proof {
        reveal_strlit("project.md");
        assert forall|dr: Seq<char>, d: Date, slug: Seq<char>|
            m.kind == MemoKind::File && #[trigger] memo::written_at(m.path@, dr, d, slug) implies target@
            == memo::project_path_of(dr, d, slug) by {
            memo::lemma_written_dir(m.path@, dr, d, slug);
        }
    }
    Ok(ExpandPlan { project_dir, target })
}

/// What deleting a memo removes: `(path, is_dir)` — the `.md` file of a file
/// memo, or the whole directory of a project.
pub fn delete(m: &Memo) -> (r: Result<(String, bool), StoreError>)
    ensures
        m.kind == MemoKind::File ==> (r matches Ok(p) && p.0@ == m.path@ && !p.1),
        m.kind == MemoKind::Project ==> match path::path_parent(m.path@) {
            None => r matches Err(e) && is_message(e, no_project_parent_msg()),
            Some(dir) => r matches Ok(p) && p.0@ == dir && p.1,
        },
{
    match m.kind {
        MemoKind::File => Ok((m.path.clone(), false)),
        MemoKind::Project => match path::parent(m.path.as_str()) {
            Some(d) => Ok((d, true)),
            None => Err(StoreError::Message("project memo has no parent directory".to_string())),
        },
    }
}

/// Where a new memo goes and what it holds: its `.md` path, the
/// `<year>/<week>` directory to create, and the template text.
#[derive(Debug)]
pub struct CreatePlan {
    pub path: String,
    pub dir: String,
    pub body: String,
}

/// Plan a new memo file for `date`/`slug` with the frontmatter + H1
/// template; `content` is the optional body. The caller refuses the plan
/// with `Collision` when the path already exists.
pub fn create(memo_dir: &str, date: Date, slug: &str, title: &str, content: Option<&str>) -> (r: CreatePlan)
    ensures
        r.path@ == memo::memo_path_of(memo_dir@, date, slug@),
        r.dir@ == memo::dir_of(memo_dir@, date),
        r.body@ == template(title@, date, memo::opt_str_view(content)),
{
    let path = memo::memo_path(memo_dir, date, slug);
    let dir = memo::dir_for(memo_dir, date);
    let body = render_template(title, date, content);
    CreatePlan { path, dir, body }
}

/// A planned new memo is refused with `Collision` when its path already
/// exists (`path_exists`, as the file system reports it).
pub fn check_create(plan: &CreatePlan, path_exists: bool) -> (r: Result<(), StplError>)
    ensures
        path_exists ==> (r matches Err(StplError::Collision(t)) && t@ == plan.path@),
        !path_exists ==> r is Ok,
{
    if path_exists {
        Err(StplError::Collision(plan.path.clone()))
    } else {
        Ok(())
    }
}

/// A rename is refused with `Collision` at its target when it moves the memo
/// and the target already exists (`target_exists`), before anything changes;
/// a rename that keeps the path goes ahead whatever is there.
pub fn check_rename(plan: &RenamePlan, target_exists: bool) -> (r: Result<(), StplError>)
    ensures
        plan.moves && target_exists ==> (r matches Err(StplError::Collision(t)) && t@ == plan.target@),
        !(plan.moves && target_exists) ==> r is Ok,
{
    if plan.moves && target_exists {
        Err(StplError::Collision(plan.target.clone()))
    } else {
        Ok(())
    }
}

/// An expansion is refused with `Collision` when the project directory
/// already exists, and otherwise when the target `project.md` does.
pub fn check_expand(plan: &ExpandPlan, dir_exists: bool, target_exists: bool) -> (r: Result<
    (),
    StplError,
>)
    ensures
        dir_exists ==> (r matches Err(StplError::Collision(t)) && t@ == plan.project_dir@),
        !dir_exists && target_exists ==> (r matches Err(StplError::Collision(t)) && t@ == plan.target@),
        !dir_exists && !target_exists ==> r is Ok,
{
    if dir_exists {
        Err(StplError::Collision(plan.project_dir.clone()))
    } else if target_exists {
        Err(StplError::Collision(plan.target.clone()))
    } else {
        Ok(())
    }
}

} // verus!
