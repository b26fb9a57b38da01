//! The memo format: YAML frontmatter tags, titles and bodies, slugs, and the
//! `<year>/<week>/<iso_date>-<slug>.md` layout.
use vstd::prelude::*;
use crate::date::Date;
use crate::error::StplError;
use crate::date;
use crate::path;
use crate::text;
use crate::unicode;

verus! {

/// Whether a memo is a single file or an expanded project directory.
#[derive(Clone, Copy, Debug, PartialEq, Eq, Structural)]
pub enum MemoKind {
    /// A `<iso_date>-<slug>.md` file.
    File,
    /// A `<iso_date>-<slug>/project.md` project directory.
    Project,
}

/// A single memo discovered on disk.
#[derive(Debug)]
pub struct Memo {
    /// Human-readable display title (slug with `-`→space, title-cased).
    pub title: String,
    /// Filename slug (lower-kebab).
    pub slug: String,
    /// Date parsed from the filename/dir prefix.
    pub date: Date,
    /// ISO week-numbering year (folder name).
    pub year: i32,
    /// ISO week number (folder name).
    pub week: u32,
    /// Path to the memo file (the `.md` itself, i.e. `project.md` for projects).
    pub path: String,
    /// File vs project.
    pub kind: MemoKind,
    /// Tags parsed from the YAML frontmatter (empty when none / unreadable).
    pub tags: Vec<String>,
}

impl Clone for Memo {
    fn clone(&self) -> (r: Memo)
        ensures
            r.title@ == self.title@,
            r.slug@ == self.slug@,
            r.date == self.date,
            r.year == self.year,
            r.week == self.week,
            r.path@ == self.path@,
            r.kind == self.kind,
            r.tags.deep_view() == self.tags.deep_view(),
    {
        Memo {
            title: self.title.clone(),
            slug: self.slug.clone(),
            date: self.date,
            year: self.year,
            week: self.week,
            path: self.path.clone(),
            kind: self.kind,
            tags: clone_strings(&self.tags),
        }
    }
}

/// A copy of `v`.
pub fn clone_strings(v: &Vec<String>) -> (r: Vec<String>)
    ensures
        r.deep_view() == v.deep_view(),
{
    let mut r: Vec<String> = Vec::new();
    let mut i: usize = 0;
    while i < v.len()
        invariant
            i <= v.len(),
            r.deep_view() == v.deep_view().take(i as int),
        decreases v.len() - i,
    {
        let ghost before = r.deep_view();
        r.push(v[i].clone());
        proof {
            assert(r.deep_view() =~= before.push(v@[i as int]@));
            assert(v.deep_view().take(i + 1) =~= v.deep_view().take(i as int).push(v@[i as int]@));
        }
        i = i + 1;
    }
    proof {
        assert(v.deep_view().take(v.len() as int) =~= v.deep_view());
    }
    r
}

/// The title with each run of characters that are not alphanumeric turned
/// into one `-` and each alphanumeric character into its lowercase form.
pub open spec fn collapse(t: Seq<char>) -> Seq<char>
    decreases t.len(),
{
    if t.len() == 0 {
        seq![]
    } else if unicode::is_alphanumeric(t.last()) {
        collapse(t.drop_last()) + unicode::lowercase(t.last())
    } else if t.len() > 1 && !unicode::is_alphanumeric(t[t.len() - 2]) {
        collapse(t.drop_last())
    } else {
        collapse(t.drop_last()).push('-')
    }
}

/// The slug of a title: `collapse` with `-` trimmed from both ends.
pub open spec fn slug_of(t: Seq<char>) -> Seq<char> {
    text::trim_by(collapse(t), text::CharClass::Dash)
}

/// Convert a free-form title into a lower-kebab slug.
///
/// Lowercase, collapse runs of non-alphanumeric chars into a single `-`, trim
/// leading/trailing `-`. Returns `InvalidTitle` if the result is empty.
pub fn slugify(title: &str) -> (r: Result<String, StplError>)
    ensures
        r is Ok <==> slug_of(title@).len() > 0,
        r matches Ok(s) ==> s@ == slug_of(title@),
        r matches Ok(s) ==> s@[0] != '-' && s@.last() != '-',
        r matches Err(e) ==> e matches StplError::InvalidTitle(t) && t@ == title@,
{
    let t = text::chars_of(title);
    let mut out: Vec<char> = Vec::new();
    let mut prev_dash = false;
    let mut i: usize = 0;
    while i < t.len()
        invariant
            i <= t.len(),
            out@ == collapse(t@.take(i as int)),
            prev_dash == (i > 0 && !unicode::is_alphanumeric(t@[i - 1])),
        decreases t.len() - i,
    {
        let ch = t[i];
        proof {
            let p = t@.take(i + 1);
            assert(p.drop_last() =~= t@.take(i as int));
            assert(p.last() == ch);
            if i > 0 {
                assert(p[p.len() - 2] == t@[i - 1]);
            }
        }
        if unicode::char_is_alphanumeric(ch) {
            let low = unicode::char_to_lowercase(ch);
            text::push_all(&mut out, &low);
            prev_dash = false;
        } else if !prev_dash {
            out.push('-');
            prev_dash = true;
        }
        i = i + 1;
    }
    proof {
        assert(t@.take(t.len() as int) =~= t@);
    }
    let (a, b) = text::trim_range_by(&out, 0, out.len(), &text::CharClass::Dash, true, true);
    proof {
        assert(out@.subrange(0, out.len() as int) =~= out@);
    }
    if a == b {
        return Err(StplError::InvalidTitle(title.to_string()));
    }
    proof {
        let x = text::trim_end_by(out@, text::CharClass::Dash);
        text::lemma_trail_run_bound(out@, text::CharClass::Dash);
        text::lemma_lead_run_bound(x, text::CharClass::Dash);
        let sl = out@.subrange(a as int, b as int);
        let l = text::lead_run(x, text::CharClass::Dash) as int;
        assert(sl == x.skip(l));
        assert(sl.len() > 0);
        assert(x.skip(l)[0] == x[l]);
        assert(sl.last() == x.skip(l)[sl.len() - 1]);
        assert(sl.last() == x.last());
        assert(x.last() == out@[out@.len() - 1 - text::trail_run(out@, text::CharClass::Dash)]);
    }
    Ok(string_of_range(&out, a, b))
}

/// A word with its first character in upper case.
pub open spec fn capitalized(w: Seq<char>) -> Seq<char> {
    unicode::uppercase(w[0]) + w.skip(1)
}

/// The nonempty words of `ps`, capitalized, in order.
pub open spec fn title_words(ps: Seq<Seq<char>>) -> Seq<Seq<char>>
    decreases ps.len(),
{
    if ps.len() == 0 {
        seq![]
    } else {
        let rest = title_words(ps.drop_last());
        if ps.last().len() > 0 {
            rest.push(capitalized(ps.last()))
        } else {
            rest
        }
    }
}

/// The display title of a slug: its `-`-separated nonempty words,
/// capitalized and joined by spaces.
pub open spec fn title_of_slug(s: Seq<char>) -> Seq<char> {
    text::join(title_words(text::split_on(s, '-')), seq![' '])
}

/// The display title of `s` as characters.
fn title_chars(s: &Vec<char>) -> (r: Vec<char>)
    ensures
        r@ == title_of_slug(s@),
{
    let n = s.len();
    let ps = text::split_ranges(s, 0, n, '-');
    proof {
        assert(s@.subrange(0, n as int) =~= s@);
    }
    let ghost pieces = text::range_texts(s@, ps@);
    let mut out: Vec<char> = Vec::new();
    let mut words: usize = 0;
    let mut i: usize = 0;
    while i < ps.len()
        invariant
            i <= ps.len(),
            text::within(ps@, s.len() as int),
            pieces == text::range_texts(s@, ps@),
            pieces == text::split_on(s@, '-'),
            out@ == text::join(title_words(pieces.take(i as int)), seq![' ']),
            words == title_words(pieces.take(i as int)).len(),
            words <= i,
        decreases ps.len() - i,
    {
        let (x, y) = ps[i];
        assert(ps@[i as int].0 <= ps@[i as int].1 <= s.len());
        let ghost tw = title_words(pieces.take(i as int));
        proof {
            let p = pieces.take(i + 1);
            assert(p.drop_last() =~= pieces.take(i as int));
            assert(p.last() == pieces[i as int]);
        }
        if y > x {
            if words > 0 {
                out.push(' ');
            }
            let up = unicode::char_to_uppercase(s[x]);
            text::push_all(&mut out, &up);
            text::push_range(&mut out, s, x + 1, y);
            proof {
                let w = s@.subrange(x as int, y as int);
                assert(w[0] == s@[x as int]);
                assert(w.skip(1) =~= s@.subrange(x + 1, y as int));
                text::lemma_join_push(tw, capitalized(w), seq![' ']);
                if words > 0 {
                    assert(out@ =~= text::join(tw, seq![' ']) + seq![' '] + capitalized(w));
                } else {
                    assert(out@ =~= capitalized(w));
                }
            }
            words = words + 1;
        }
        i = i + 1;
    }
    proof {
        assert(pieces.take(ps.len() as int) =~= pieces);
    }
    out
}

/// Derive a display title from a slug (`my-note` -> `My Note`).
pub fn title_from_slug(slug: &str) -> (r: String)
    ensures
        r@ == title_of_slug(slug@),
{
    let s = text::chars_of(slug);
    let t = title_chars(&s);
    text::string_from_chars(t.as_slice())
}

/// `"---\n"`, the opening fence of the frontmatter.
pub open spec fn fm_open() -> Seq<char> {
    seq!['-', '-', '-', '\n']
}

/// `"---"`, the text of a fence line once trimmed.
pub open spec fn fence_text() -> Seq<char> {
    seq!['-', '-', '-']
}

/// `"tags:"`.
pub open spec fn tags_key() -> Seq<char> {
    seq!['t', 'a', 'g', 's', ':']
}

/// `"title:"`.
pub open spec fn title_key() -> Seq<char> {
    seq!['t', 'i', 't', 'l', 'e', ':']
}

/// `"# "`, the start of a level-1 heading.
pub open spec fn heading_mark() -> Seq<char> {
    seq!['#', ' ']
}

/// A line that is a `---` fence once trimmed.
pub open spec fn is_fence(l: Seq<char>) -> bool {
    text::trim(l) == fence_text()
}

/// A line that, trimmed, starts with `tags:`.
pub open spec fn is_tags_line(l: Seq<char>) -> bool {
    text::starts_with(text::trim(l), tags_key())
}

/// A line that, trimmed, starts with `title:`.
pub open spec fn is_title_line(l: Seq<char>) -> bool {
    text::starts_with(text::trim(l), title_key())
}

/// A line that starts with `# `.
pub open spec fn is_heading(l: Seq<char>) -> bool {
    text::starts_with(l, heading_mark())
}

/// The kinds of lines that the frontmatter functions look for.
pub enum LineKind {
    Fence,
    Tags,
    Title,
    Heading,
    FenceOrTags,
}

/// The test that a line of kind `k` passes.
pub open spec fn line_pred(k: LineKind) -> spec_fn(Seq<char>) -> bool {
    |l: Seq<char>|
        match k {
            LineKind::Fence => is_fence(l),
            LineKind::Tags => is_tags_line(l),
            LineKind::Title => is_title_line(l),
            LineKind::Heading => is_heading(l),
            LineKind::FenceOrTags => is_fence(l) || is_tags_line(l),
        }
}

fn fence_vec() -> (v: Vec<char>)
    ensures
        v@ == fence_text(),
{
    vec!['-', '-', '-']
}

fn fm_open_vec() -> (v: Vec<char>)
    ensures
        v@ == fm_open(),
{
    vec!['-', '-', '-', '\n']
}

fn tags_key_vec() -> (v: Vec<char>)
    ensures
        v@ == tags_key(),
{
    vec!['t', 'a', 'g', 's', ':']
}

fn title_key_vec() -> (v: Vec<char>)
    ensures
        v@ == title_key(),
{
    vec!['t', 'i', 't', 'l', 'e', ':']
}

fn heading_vec() -> (v: Vec<char>)
    ensures
        v@ == heading_mark(),
{
    vec!['#', ' ']
}

/// Whether the line `s[lo..hi]` is of kind `k`.
fn line_is(k: &LineKind, s: &Vec<char>, lo: usize, hi: usize) -> (r: bool)
    requires
        lo <= hi <= s.len(),
    ensures
        r == line_pred(*k)(s@.subrange(lo as int, hi as int)),
{
    match k {
        LineKind::Heading => text::starts_with_at(s, lo, hi, &heading_vec()),
        _ => {
            let (a, b) = text::trim_range(s, lo, hi);
            match k {
                LineKind::Fence => text::eq_range(s, a, b, &fence_vec()),
                LineKind::Tags => text::starts_with_at(s, a, b, &tags_key_vec()),
                LineKind::Title => text::starts_with_at(s, a, b, &title_key_vec()),
                _ => text::eq_range(s, a, b, &fence_vec()) || text::starts_with_at(s, a, b, &tags_key_vec()),
            }
        },
    }
}

/// The first line, from index `start` on, of kind `k`.
fn scan_lines(s: &Vec<char>, r: &Vec<(usize, usize)>, start: usize, k: LineKind) -> (i: usize)
    requires
        text::within(r@, s.len() as int),
        start <= r.len(),
    ensures
        i == text::first_from(text::range_texts(s@, r@), line_pred(k), start as int),
{
    let ghost ls = text::range_texts(s@, r@);
    let mut i = start;
    while i < r.len()
        invariant
            start <= i <= r.len(),
            text::within(r@, s.len() as int),
            ls == text::range_texts(s@, r@),
            forall|j: int| start <= j < i ==> !line_pred(k)(#[trigger] ls[j]),
        decreases r.len() - i,
    {
        let (a, b) = r[i];
        assert(r@[i as int].0 <= r@[i as int].1 <= s.len());
        if line_is(&k, s, a, b) {
            proof {
                text::lemma_first_from_is(ls, line_pred(k), start as int, i as int);
            }
            return i;
        }
        i = i + 1;
    }
    proof {
        text::lemma_first_from_is(ls, line_pred(k), start as int, i as int);
    }
    i
}

/// A `String` holding `s[lo..hi]`.
pub fn string_of_range(s: &Vec<char>, lo: usize, hi: usize) -> (r: String)
    requires
        lo <= hi <= s.len(),
    ensures
        r@ == s@.subrange(lo as int, hi as int),
{
    let mut v: Vec<char> = Vec::new();
    text::push_range(&mut v, s, lo, hi);
    text::string_from_chars(v.as_slice())
}

/// A tag item as `parse_tags` cleans it: trimmed, stripped of surrounding
/// quotes, trimmed again.
pub open spec fn clean_tag(t: Seq<char>) -> Seq<char> {
    text::trim(text::trim_by(text::trim(t), text::CharClass::Quote))
}

/// The cleaned items of `ps` that are not empty, in order.
pub open spec fn keep_tags(ps: Seq<Seq<char>>) -> Seq<Seq<char>>
    decreases ps.len(),
{
    if ps.len() == 0 {
        seq![]
    } else {
        let rest = keep_tags(ps.drop_last());
        let t = clean_tag(ps.last());
        if t.len() > 0 {
            rest.push(t)
        } else {
            rest
        }
    }
}

/// The tags that a `tags:` line lists: the value after `tags:`, trimmed, must
/// be an inline `[..]` list; its comma-separated items are cleaned and the
/// empty ones dropped. Any other value lists no tags.
pub open spec fn tags_in_line(l: Seq<char>) -> Seq<Seq<char>> {
    let v = text::trim(text::trim(l).skip(5));
    if v.len() >= 2 && v[0] == '[' && v.last() == ']' {
        keep_tags(text::split_on(v.subrange(1, v.len() - 1), ','))
    } else {
        seq![]
    }
}

/// Whether `c` opens with a frontmatter block: a `---` line at the very top
/// and, after it, a closing line that is `---` once trimmed. A block that is
/// opened but never closed is no frontmatter.
pub open spec fn has_frontmatter(c: Seq<char>) -> bool {
    &&& text::starts_with(c, fm_open())
    &&& text::first_from(text::lines_incl(c.skip(4)), line_pred(LineKind::Fence), 0) < text::lines_incl(
        c.skip(4),
    ).len()
}

/// The tags of a memo: when `c` opens with a frontmatter block, the first line
/// of it that is either its closing fence or a `tags:` line decides; a `tags:`
/// line gives `tags_in_line`. Without frontmatter (an unclosed block included)
/// or without a `tags:` line before the closing fence, no tags.
pub open spec fn parse_tags_spec(c: Seq<char>) -> Seq<Seq<char>> {
    if !has_frontmatter(c) {
        seq![]
    } else {
        let ls = text::lines_incl(c.skip(4));
        let k = text::first_from(ls, line_pred(LineKind::FenceOrTags), 0);
        if k < ls.len() && !is_fence(ls[k]) {
            tags_in_line(ls[k])
        } else {
            seq![]
        }
    }
}

/// The tags of the `tags:` line `s[lo..hi]`.
fn tags_from_line(s: &Vec<char>, lo: usize, hi: usize) -> (res: Vec<String>)
    requires
        lo <= hi <= s.len(),
        is_tags_line(s@.subrange(lo as int, hi as int)),
    ensures
        res.deep_view() == tags_in_line(s@.subrange(lo as int, hi as int)),
{
    let ghost l = s@.subrange(lo as int, hi as int);
    let (a, b) = text::trim_range(s, lo, hi);
    assert(a + 5 <= b);
    let (va, vb) = text::trim_range(s, a + 5, b);
    proof {
        assert(text::trim(l).skip(5) =~= s@.subrange(a + 5, b as int));
    }
    let ghost v = s@.subrange(va as int, vb as int);
    if vb - va >= 2 && s[va] == '[' && s[vb - 1] == ']' {
        proof {
            assert(v[0] == s@[va as int]);
            assert(v.last() == s@[vb - 1]);
            assert(v.subrange(1, v.len() - 1) =~= s@.subrange(va + 1, vb - 1));
        }
        let ps = text::split_ranges(s, va + 1, vb - 1, ',');
        let ghost pieces = text::range_texts(s@, ps@);
        let mut out: Vec<String> = Vec::new();
        let mut i: usize = 0;
        while i < ps.len()
            invariant
                i <= ps.len(),
                text::within(ps@, s.len() as int),
                pieces == text::range_texts(s@, ps@),
                out.deep_view() == keep_tags(pieces.take(i as int)),
            decreases ps.len() - i,
        {
            let (x, y) = ps[i];
            assert(ps@[i as int].0 <= ps@[i as int].1 <= s.len());
            let (x1, y1) = text::trim_range(s, x, y);
            let (x2, y2) = text::trim_range_by(s, x1, y1, &text::CharClass::Quote, true, true);
            let (x3, y3) = text::trim_range(s, x2, y2);
            proof {
                assert(pieces.take(i + 1).drop_last() =~= pieces.take(i as int));
                assert(pieces.take(i + 1).last() == pieces[i as int]);
            }
            if y3 > x3 {
                let t = string_of_range(s, x3, y3);
                let ghost before = out.deep_view();
                out.push(t);
                proof {
                    assert(out.deep_view() =~= before.push(t@));
                }
            }
            i = i + 1;
        }
        proof {
            assert(pieces.take(ps.len() as int) =~= pieces);
        }
        out
    } else {
        proof {
            if v.len() >= 2 {
                assert(v[0] == s@[va as int]);
                assert(v.last() == s@[vb - 1]);
            }
        }
        Vec::new()
    }
}

/// Parse the inline `tags: [a, b, c]` list from a memo's YAML frontmatter.
///
/// Only the leading frontmatter block (delimited by `---` lines) is scanned,
/// and only the inline `[..]` form is understood. Surrounding whitespace and
/// optional quotes are stripped from each tag; empty items are dropped.
/// Returns an empty vec when there is no frontmatter or no `tags:` line; a
/// block that is opened but never closed is no frontmatter.
pub fn parse_tags(content: &str) -> (res: Vec<String>)
    ensures
        res.deep_view() == parse_tags_spec(content@),
{
    let c = text::chars_of(content);
    let n = c.len();
    if !text::starts_with_at(&c, 0, n, &fm_open_vec()) {
        proof {
            assert(c@.subrange(0, n as int) =~= c@);
        }
        return Vec::new();
    }
    proof {
        assert(c@.subrange(0, n as int) =~= c@);
        assert(c@.skip(4) =~= c@.subrange(4, n as int));
    }
    let r = text::split_lines(&c, 4, n);
    let f = scan_lines(&c, &r, 0, LineKind::Fence);
    proof {
        text::lemma_first_from(text::range_texts(c@, r@), line_pred(LineKind::Fence), 0);
        assert(has_frontmatter(c@) == (f < r.len()));
    }
    if f == r.len() {
        return Vec::new();
    }
    let k = scan_lines(&c, &r, 0, LineKind::FenceOrTags);
    proof {
        text::lemma_first_from(text::range_texts(c@, r@), line_pred(LineKind::FenceOrTags), 0);
    }
    if k < r.len() {
        let (a, b) = r[k];
        assert(r@[k as int].0 <= r@[k as int].1 <= c.len());
        if !line_is(&LineKind::Fence, &c, a, b) {
            proof {
                assert(has_frontmatter(c@));
            }
            return tags_from_line(&c, a, b);
        }
    }
    Vec::new()
}


/// `"tags: [a, b]"`: the inline frontmatter line that lists `tags`.
pub open spec fn tags_line(tags: Seq<Seq<char>>) -> Seq<char> {
    seq!['t', 'a', 'g', 's', ':', ' ', '['] + text::join(tags, seq![',', ' ']) + seq![']']
}

/// `tags_line` as characters.
fn tags_line_chars(tags: &[String]) -> (v: Vec<char>)
    ensures
        v@ == tags_line(tags.deep_view()),
{
    let mut v: Vec<char> = vec!['t', 'a', 'g', 's', ':', ' ', '['];
    text::push_join(&mut v, tags, &vec![',', ' ']);
    v.push(']');
    v
}

/// Render the inline frontmatter `tags:` line for `tags`, e.g. `tags: [a, b]`.
pub fn render_tags_line(tags: &[String]) -> (r: String)
    ensures
        r@ == tags_line(tags.deep_view()),
{
    let v = tags_line_chars(tags);
    text::string_from_chars(v.as_slice())
}

/// The content that `write_tags` gives: with a leading frontmatter block, the
/// first `tags:` line before its closing fence is replaced by
/// `tags_line(tags)`, or, if there is none, that line is inserted before the
/// closing fence. Without a leading frontmatter (an unclosed block included)
/// a fresh block holding only the tags line is prepended, followed by a blank
/// line.
pub open spec fn write_tags_spec(c: Seq<char>, tags: Seq<Seq<char>>) -> Seq<char> {
    let tl = tags_line(tags).push('\n');
    if !has_frontmatter(c) {
        fm_open() + tl + seq!['-', '-', '-', '\n', '\n'] + c
    } else {
        let ls = text::lines_incl(c.skip(4));
        let f = text::first_from(ls, line_pred(LineKind::Fence), 0);
        let t = text::first_from(ls, line_pred(LineKind::Tags), 0);
        if t < f {
            fm_open() + ls.update(t, tl).flatten()
        } else {
            fm_open() + ls.insert(f, tl).flatten()
        }
    }
}

/// `fm_open() + tl + "---\n\n" + c`: a fresh block put in front of `c`.
fn prepend_block(c: &Vec<char>, tl: &Vec<char>) -> (out: Vec<char>)
    ensures
        out@ == fm_open() + tl@ + seq!['-', '-', '-', '\n', '\n'] + c@,
{
    let mut out: Vec<char> = Vec::new();
    text::push_all(&mut out, &fm_open_vec());
    text::push_all(&mut out, tl);
    text::push_all(&mut out, &vec!['-', '-', '-', '\n', '\n']);
    text::push_all(&mut out, c);
    out
}

/// Where line `k` of the tiling `r` of `lo..hi` starts (`hi` past the last).
fn start_of(r: &Vec<(usize, usize)>, k: usize, hi: usize) -> (p: usize)
    requires
        k <= r.len(),
    ensures
        p == text::piece_start(r@, k as int, hi as int),
{
    if k < r.len() {
        r[k].0
    } else {
        hi
    }
}

/// Return `content` with its frontmatter `tags:` list set to `tags` (inline
/// form, matching what the template writes).
///
/// - If the leading frontmatter has an inline `tags:` line, it is replaced in
///   place (other lines are preserved verbatim).
/// - If the frontmatter has no `tags:` line, one is inserted just before the
///   closing `---`.
/// - If `content` has no leading frontmatter at all, a fresh block is prepended;
///   a block that is opened but never closed is no frontmatter.
#[verifier::spinoff_prover]
#[verifier::rlimit(40)]
pub fn write_tags(content: &str, tags: &[String]) -> (res: String)
    ensures
        res@ == write_tags_spec(content@, tags.deep_view()),
{
    let c = text::chars_of(content);
    let n = c.len();
    let mut tl = tags_line_chars(tags);
    tl.push('\n');
    proof {
        assert(c@.subrange(0, n as int) =~= c@);
    }
    if !text::starts_with_at(&c, 0, n, &fm_open_vec()) {
        let out = prepend_block(&c, &tl);
        return text::string_from_chars(out.as_slice());
    }
    proof {
        assert(c@.skip(4) =~= c@.subrange(4, n as int));
        assert(c@.subrange(0, 4) =~= fm_open());
    }
    let r = text::split_lines(&c, 4, n);
    let ghost ls = text::range_texts(c@, r@);
    let f = scan_lines(&c, &r, 0, LineKind::Fence);
    let t = scan_lines(&c, &r, 0, LineKind::Tags);
    proof {
        text::lemma_first_from(ls, line_pred(LineKind::Fence), 0);
        text::lemma_first_from(ls, line_pred(LineKind::Tags), 0);
        assert(ls == text::lines_incl(c@.skip(4)));
        assert(has_frontmatter(c@) == (f < r.len()));
    }
    if f == r.len() {
        let out = prepend_block(&c, &tl);
        text::string_from_chars(out.as_slice())
    } else if t < f {
        let a = start_of(&r, t, n);
        let b = start_of(&r, t + 1, n);
        proof {
            lemma_spliced(c@, r@, t as int, t + 1, tl@);
        }
        let out = splice_lines(&c, a, b, &tl);
        proof {
            assert(ls.update(t as int, tl@) =~= ls.take(t as int) + seq![tl@] + ls.skip(t + 1));
        }
        text::string_from_chars(out.as_slice())
    } else {
        let a = start_of(&r, f, n);
        proof {
            lemma_spliced(c@, r@, f as int, f as int, tl@);
        }
        let out = splice_lines(&c, a, a, &tl);
        proof {
            assert(ls.insert(f as int, tl@) =~= ls.take(f as int) + seq![tl@] + ls.skip(
                f as int,
            ));
        }
        text::string_from_chars(out.as_slice())
    }
}

/// `c[0..a] + x + c[b..]`.
fn splice_lines(c: &Vec<char>, a: usize, b: usize, x: &Vec<char>) -> (out: Vec<char>)
    requires
        a <= b <= c.len(),
    ensures
        out@ == c@.subrange(0, a as int) + x@ + c@.subrange(b as int, c.len() as int),
{
    let mut out: Vec<char> = Vec::new();
    text::push_range(&mut out, c, 0, a);
    text::push_all(&mut out, x);
    text::push_range(&mut out, c, b, c.len());
    out
}

/// The text that `splice_lines` builds from the line ranges `k` and `k2`.
#[verifier::rlimit(40)]
#[verifier::spinoff_prover]
proof fn lemma_spliced(c: Seq<char>, r: Seq<(usize, usize)>, k: int, k2: int, x: Seq<char>)
    requires
        4 <= c.len(),
        text::tiles(r, 4, c.len() as int),
        c.subrange(0, 4) == fm_open(),
        0 <= k <= k2 <= r.len(),
    ensures
        4 <= text::piece_start(r, k, c.len() as int) <= text::piece_start(r, k2, c.len() as int)
            <= c.len(),
        c.subrange(0, text::piece_start(r, k, c.len() as int)) + x + c.subrange(
            text::piece_start(r, k2, c.len() as int),
            c.len() as int,
        ) == fm_open() + ({
            let ls = text::range_texts(c, r);
            ls.take(k) + seq![x] + ls.skip(k2)
        }).flatten(),
{
    let n = c.len() as int;
    let a = text::piece_start(r, k, n);
    let b = text::piece_start(r, k2, n);
    let ls = text::range_texts(c, r);
    let fl = (ls.take(k) + seq![x] + ls.skip(k2)).flatten();
    assert(4 <= a <= b <= n && fl == c.subrange(4, a) + x + c.subrange(b, n)) by {
        text::lemma_tiles_splice(c, r, 4, n, k, k2, x);
    }
    assert(c.subrange(0, a) + x + c.subrange(b, n) =~= fm_open() + (c.subrange(4, a) + x
        + c.subrange(b, n))) by {
        assert(c.subrange(0, a) =~= c.subrange(0, 4) + c.subrange(4, a));
    }
}

/// The body of `c` with a leading frontmatter block removed: the text after
/// the closing fence line, with the newlines that start it trimmed. Without a
/// leading frontmatter, or when it is never closed, `c` itself.
pub open spec fn strip_frontmatter_spec(c: Seq<char>) -> Seq<char> {
    if !text::starts_with(c, fm_open()) {
        c
    } else {
        let ls = text::lines_incl(c.skip(4));
        let f = text::first_from(ls, line_pred(LineKind::Fence), 0);
        if f < ls.len() {
            text::trim_start_by(ls.skip(f + 1).flatten(), text::CharClass::Newline)
        } else {
            c
        }
    }
}

/// The range of `content` after its frontmatter: `(start, end, closed)`,
/// where `closed` says the frontmatter was found and closed, and the range is
/// then the rest of the content after the closing fence line.
pub(crate) fn after_frontmatter(c: &Vec<char>) -> (r: (usize, usize, bool))
    ensures
        r.0 <= r.1 == c.len(),
        r.2 <==> ({
            &&& text::starts_with(c@, fm_open())
            &&& text::first_from(
                text::lines_incl(c@.skip(4)),
                line_pred(LineKind::Fence),
                0,
            ) < text::lines_incl(c@.skip(4)).len()
        }),
        r.2 ==> c@.subrange(r.0 as int, r.1 as int) == text::lines_incl(c@.skip(4)).skip(
            text::first_from(text::lines_incl(c@.skip(4)), line_pred(LineKind::Fence), 0) + 1,
        ).flatten(),
{
    let n = c.len();
    proof {
        assert(c@.subrange(0, n as int) =~= c@);
    }
    if !text::starts_with_at(c, 0, n, &fm_open_vec()) {
        return (0, n, false);
    }
    proof {
        assert(c@.skip(4) =~= c@.subrange(4, n as int));
    }
    let r = text::split_lines(c, 4, n);
    let f = scan_lines(c, &r, 0, LineKind::Fence);
    if f < r.len() {
        let a = start_of(&r, f + 1, n);
        proof {
            text::lemma_tiles_split(c@, r@, 4, n as int, f + 1);
        }
        (a, n, true)
    } else {
        (0, n, false)
    }
}

/// Return the body of `content` with any leading YAML frontmatter block
/// removed. If there is no `---`-delimited frontmatter at the top, the whole
/// string is returned unchanged. Leading blank lines after the closing fence
/// are trimmed so the body starts at its first real line.
pub fn strip_frontmatter(content: &str) -> (res: &str)
    ensures
        res@ == strip_frontmatter_spec(content@),
{
    let c = text::chars_of(content);
    let (a, b, closed) = after_frontmatter(&c);
    if !closed {
        return content;
    }
    let (x, y) = text::trim_range_by(&c, a, b, &text::CharClass::Newline, true, false);
    content.substring_char(x, y)
}

/// `"title: "`.
pub open spec fn title_mark() -> Seq<char> {
    seq!['t', 'i', 't', 'l', 'e', ':', ' ']
}

/// The line `l` rewritten as `mark` followed by `title`, keeping `l`'s newline.
pub open spec fn retitled(l: Seq<char>, mark: Seq<char>, title: Seq<char>) -> Seq<char> {
    mark + title + if l.len() > 0 && l.last() == '\n' {
        seq!['\n']
    } else {
        seq![]
    }
}

/// The content that `rewrite_title` gives. With a leading frontmatter (a
/// first line `---`), the first `title:` line before the closing fence and
/// the first `# ` heading after it are rewritten; an unclosed frontmatter
/// runs to the end, so no heading is rewritten. Without frontmatter, the
/// first `# ` heading is rewritten. Every other line is kept as it is.
pub open spec fn rewrite_title_spec(c: Seq<char>, title: Seq<char>) -> Seq<char> {
    let ls = text::lines_incl(c);
    if text::starts_with(c, fm_open()) {
        let f = text::first_from(ls, line_pred(LineKind::Fence), 1);
        let t = text::first_from(ls, line_pred(LineKind::Title), 1);
        let h = if f < ls.len() {
            text::first_from(ls, line_pred(LineKind::Heading), f + 1)
        } else {
            ls.len() as int
        };
        let ls1 = if t < f {
            ls.update(t, retitled(ls[t], title_mark(), title))
        } else {
            ls
        };
        let ls2 = if h < ls.len() {
            ls1.update(h, retitled(ls[h], heading_mark(), title))
        } else {
            ls1
        };
        ls2.flatten()
    } else {
        let h = text::first_from(ls, line_pred(LineKind::Heading), 0);
        if h < ls.len() {
            ls.update(h, retitled(ls[h], heading_mark(), title)).flatten()
        } else {
            c
        }
    }
}

/// Return `content` with its title set to `new_title`: replaces the frontmatter
/// `title:` line (if present) and the first level-1 (`# `) heading in the body
/// (if present). All other lines — and the file's trailing-newline shape — are
/// preserved verbatim.
#[verifier::rlimit(40)]
#[verifier::spinoff_prover]
pub fn rewrite_title(content: &str, new_title: &str) -> (res: String)
    ensures
        res@ == rewrite_title_spec(content@, new_title@),
{
    let c = text::chars_of(content);
    let n = c.len();
    let title = text::chars_of(new_title);
    proof {
        assert(c@.subrange(0, n as int) =~= c@);
    }
    let has_fm = text::starts_with_at(&c, 0, n, &fm_open_vec());
    let r = text::split_lines(&c, 0, n);
    let ghost ls = text::range_texts(c@, r@);
    let m = r.len();
    let mut tt = m;
    let mut hh = m;
    let ghost mut ls2 = ls;
    if has_fm {
        assert(m >= 1);
        let f = scan_lines(&c, &r, 1, LineKind::Fence);
        let t = scan_lines(&c, &r, 1, LineKind::Title);
        proof {
            text::lemma_first_from(ls, line_pred(LineKind::Fence), 1);
            text::lemma_first_from(ls, line_pred(LineKind::Title), 1);
        }
        if t < f {
            tt = t;
        }
        if f < m {
            hh = scan_lines(&c, &r, f + 1, LineKind::Heading);
            proof {
                text::lemma_first_from(ls, line_pred(LineKind::Heading), f + 1);
            }
        }
        proof {
            let ls1 = if t < f {
                ls.update(t as int, retitled(ls[t as int], title_mark(), title@))
            } else {
                ls
            };
            ls2 =
            if hh < m {
                ls1.update(hh as int, retitled(ls[hh as int], heading_mark(), title@))
            } else {
                ls1
            };
        }
    } else {
        hh = scan_lines(&c, &r, 0, LineKind::Heading);
        proof {
            text::lemma_first_from(ls, line_pred(LineKind::Heading), 0);
            text::lemma_tiles_split(c@, r@, 0, n as int, 0);
            assert(ls.skip(0) =~= ls);
            if hh < m {
                ls2 = ls.update(hh as int, retitled(ls[hh as int], heading_mark(), title@));
            }
        }
    }
    assert(tt < m && hh < m ==> tt != hh);
    assert(ls2.flatten() == rewrite_title_spec(content@, title@)) by {
        text::lemma_tiles_split(c@, r@, 0, n as int, 0);
        assert(ls.skip(0) =~= ls);
    }
    let mut out: Vec<char> = Vec::new();
    let mut i: usize = 0;
    while i < m
        invariant
            i <= m == r.len(),
            ls == text::range_texts(c@, r@),
            ls2.len() == m,
            text::tiles(r@, 0, n as int),
            n == c.len(),
            tt <= m,
            hh <= m,
            tt < m && hh < m ==> tt != hh,
            forall|j: int|
                0 <= j < m ==> #[trigger] ls2[j] == if j == tt {
                    retitled(ls[j], title_mark(), title@)
                } else if j == hh {
                    retitled(ls[j], heading_mark(), title@)
                } else {
                    ls[j]
                },
            out@ == ls2.take(i as int).flatten(),
        decreases m - i,
    {
        let (a, b) = r[i];
        proof {
            text::lemma_tiles_bounds(r@, 0, n as int, i as int);
        }
        let ghost before = out@;
        if i == tt || i == hh {
            if i == tt {
                text::push_all(&mut out, &title_key_vec());
                out.push(' ');
            } else {
                text::push_all(&mut out, &heading_vec());
            }
            text::push_all(&mut out, &title);
            if c[b - 1] == '\n' {
                out.push('\n');
            }
            proof {
                let l = ls[i as int];
                assert(l == c@.subrange(a as int, b as int));
                assert(l.last() == c@[b - 1]);
                assert(title_key() + seq![' '] =~= title_mark());
                assert(out@ =~= before + ls2[i as int]);
            }
        } else {
            text::push_range(&mut out, &c, a, b);
        }
        proof {
            assert(ls2.take(i + 1) =~= ls2.take(i as int).push(ls2[i as int]));
            ls2.take(i as int).lemma_flatten_push(ls2[i as int]);
        }
        i = i + 1;
    }
    proof {
        assert(ls2.take(m as int) =~= ls2);
    }
    text::string_from_chars(out.as_slice())
}


/// The number of bytes of `c` in UTF-8.
pub open spec fn utf8_len(c: char) -> int {
    let u = c as u32;
    if u < 0x80 {
        1
    } else if u < 0x800 {
        2
    } else if u < 0x10000 {
        3
    } else {
        4
    }
}

/// The number of leading characters of `s` that take exactly `b` bytes in
/// UTF-8, if some do (`str::get(..b)` succeeds exactly then).
pub open spec fn chars_in_bytes(s: Seq<char>, b: int) -> Option<nat>
    decreases s.len(),
{
    if b == 0 {
        Some(0)
    } else if s.len() == 0 || b < 0 {
        None
    } else {
        match chars_in_bytes(s.drop_first(), b - utf8_len(s[0])) {
            Some(k) => Some(k + 1),
            None => None,
        }
    }
}

/// `o` with `i` added to the count it holds.
pub open spec fn shift(o: Option<nat>, i: int) -> Option<nat> {
    match o {
        Some(k) => Some((k + i) as nat),
        None => None,
    }
}

/// The number of leading characters of `s` that take exactly `b` bytes.
fn prefix_of_bytes(s: &Vec<char>, b: usize) -> (r: Option<usize>)
    ensures
        match r {
            Some(k) => chars_in_bytes(s@, b as int) == Some(k as nat) && k <= s.len(),
            None => chars_in_bytes(s@, b as int) is None,
        },
{
    let mut i: usize = 0;
    let mut used: usize = 0;
    proof {
        assert(s@.skip(0) =~= s@);
    }
    while used < b && i < s.len()
        invariant
            i <= s.len(),
            used <= b,
            chars_in_bytes(s@, b as int) == shift(
                chars_in_bytes(s@.skip(i as int), b - used),
                i as int,
            ),
        decreases s.len() - i,
    {
        let c = s[i];
        let u = c as u32;
        let l: usize = if u < 0x80 {
            1
        } else if u < 0x800 {
            2
        } else if u < 0x10000 {
            3
        } else {
            4
        };
        proof {
            let t = s@.skip(i as int);
            assert(t[0] == c);
            assert(t.drop_first() =~= s@.skip(i + 1));
        }
        if l > b - used {
            proof {
                let t = s@.skip(i as int);
                assert(chars_in_bytes(t.drop_first(), b - used - l) is None) by {
                    assert(b - used - l < 0);
                    assert(b - used - l != 0);
                }
            }
            return None;
        }
        used = used + l;
        i = i + 1;
    }
    if used == b {
        Some(i)
    } else {
        proof {
            assert(s@.skip(i as int).len() == 0);
        }
        None
    }
}

/// A file stem `<iso_date>-<slug>`, taken apart: the first 10 bytes must be a
/// date that chrono parses as `%Y-%m-%d`, followed by `-` and a nonempty slug.
pub open spec fn parse_stem_spec(stem: Seq<char>) -> Option<((i32, u32, u32), Seq<char>)> {
    match chars_in_bytes(stem, 10) {
        None => None,
        Some(k) => match date::parse_ymd_of(stem.take(k as int)) {
            None => None,
            Some(t) => {
                let rest = stem.skip(k as int);
                if rest.len() >= 2 && rest[0] == '-' {
                    Some((t, rest.skip(1)))
                } else {
                    None
                }
            },
        },
    }
}

/// `stem` is `<iso_date>-<slug>` for the day `y-m-d` of one of the years 0
/// to 9999 and a nonempty slug.
pub open spec fn dated_stem(stem: Seq<char>, y: i32, m: u32, d: u32, slug: Seq<char>) -> bool {
    &&& 0 <= y <= 9999
    &&& date::is_calendar_date(y as int, m as int, d as int)
    &&& slug.len() > 0
    &&& stem == date::ymd_text(y as int, m as int, d as int) + seq!['-'] + slug
}

/// Characters below 0x80 take one byte each.
proof fn lemma_ascii_bytes(s: Seq<char>, b: int)
    requires
        0 <= b <= s.len(),
        forall|i: int| 0 <= i < b ==> (#[trigger] s[i] as u32) < 0x80,
    ensures
        chars_in_bytes(s, b) == Some(b as nat),
    decreases b,
{
    if b > 0 {
        let t = s.drop_first();
        assert forall|i: int| 0 <= i < b - 1 implies (#[trigger] t[i] as u32) < 0x80 by {
            assert(t[i] == s[i + 1]);
        }
        assert((s[0] as u32) < 0x80);
        lemma_ascii_bytes(t, b - 1);
    }
}

/// The parts of a dated stem.
proof fn lemma_dated_stem(stem: Seq<char>, y: i32, m: u32, d: u32, slug: Seq<char>)
    requires
        dated_stem(stem, y, m, d, slug),
    ensures
        chars_in_bytes(stem, 10) == Some(10nat),
        stem.len() >= 12,
        date::plain_ymd(stem.take(10), y, m, d),
        stem[10] == '-',
        stem.skip(11) == slug,
{
    let t = date::ymd_text(y as int, m as int, d as int);
    date::lemma_ymd_shape(y as int, m as int, d as int);
    assert forall|i: int| 0 <= i < 10 implies (#[trigger] stem[i] as u32) < 0x80 by {
        assert(stem[i] == t[i]);
        if i != 4 && i != 7 {
            assert('0' <= t[i] <= '9');
        }
    }
    lemma_ascii_bytes(stem, 10);
    assert(stem.take(10) =~= t);
    assert(stem.skip(11) =~= slug);
}

/// Parse a `<iso_date>-<slug>` stem into its date and slug components.
///
/// The first 10 bytes must be `%Y-%m-%d`, followed by a `-`, then a non-empty
/// slug. Returns `None` on any parse failure. A stem written from a day of
/// the years 0 to 9999 and a nonempty slug gives them back.
pub fn parse_stem(stem: &str) -> (r: Option<(Date, String)>)
    ensures
        r is Some <==> parse_stem_spec(stem@) is Some,
        r matches Some(p) ==> parse_stem_spec(stem@) == Some(
            ((p.0.y(), p.0.m(), p.0.d()), p.1@),
        ),
        forall|y: i32, m: u32, d: u32, slug: Seq<char>|
            #[trigger] dated_stem(stem@, y, m, d, slug) ==> (r matches Some(p) && p.0.y() == y && p.0.m()
                == m && p.0.d() == d && p.1@ == slug),
{
    let s = text::chars_of(stem);
    let k = match prefix_of_bytes(&s, 10) {
        Some(k) => k,
        None => {
            proof {
                assert forall|y: i32, m: u32, d: u32, slug: Seq<char>|
                    #[trigger] dated_stem(stem@, y, m, d, slug) implies false by {
                    lemma_dated_stem(stem@, y, m, d, slug);
                }
            }
            return None;
        },
    };
    let date_part = stem.substring_char(0, k);
    proof {
        assert(date_part@ =~= stem@.take(k as int));
    }
    let date = match Date::parse_ymd(date_part) {
        Some(d) => d,
        None => {
            proof {
                assert forall|y: i32, m: u32, d: u32, slug: Seq<char>|
                    #[trigger] dated_stem(stem@, y, m, d, slug) implies false by {
                    lemma_dated_stem(stem@, y, m, d, slug);
                    assert(date::plain_ymd(date_part@, y, m, d));
                }
            }
            return None;
        },
    };
    let n = s.len();
    if n - k >= 2 && s[k] == '-' {
        let slug = string_of_range(&s, k + 1, n);
        proof {
            let rest = s@.skip(k as int);
            assert(rest[0] == s@[k as int]);
            assert(rest.skip(1) =~= s@.subrange(k + 1, n as int));
            assert forall|y: i32, m: u32, d: u32, sl: Seq<char>|
                #[trigger] dated_stem(stem@, y, m, d, sl) implies date.y() == y && date.m() == m && date.d()
                == d && slug@ == sl by {
                lemma_dated_stem(stem@, y, m, d, sl);
                assert(date::plain_ymd(date_part@, y, m, d));
                assert(s@.subrange(k + 1, n as int) =~= stem@.skip(11));
            }
        }
        Some((date, slug))
    } else {
        proof {
            let rest = s@.skip(k as int);
            if rest.len() >= 2 {
                assert(rest[0] == s@[k as int]);
            }
            assert forall|y: i32, m: u32, d: u32, sl: Seq<char>|
                #[trigger] dated_stem(stem@, y, m, d, sl) implies false by {
                lemma_dated_stem(stem@, y, m, d, sl);
            }
        }
        None
    }
}

/// `"md"`.
pub open spec fn md_ext() -> Seq<char> {
    seq!['m', 'd']
}

/// `"project.md"`.
pub open spec fn project_md() -> Seq<char> {
    seq!['p', 'r', 'o', 'j', 'e', 'c', 't', '.', 'm', 'd']
}

/// The stem that names a memo at path `p`, and its kind: a `.md` file named
/// `project.md` is a project named by its directory; any other `.md` file is
/// named by its own stem. `None` for other paths.
pub open spec fn memo_stem(p: Seq<char>) -> Option<(Seq<char>, MemoKind)> {
    if path::path_extension(p) != Some(md_ext()) {
        None
    } else {
        match path::path_file_name(p) {
            None => None,
            Some(name) => if name == project_md() {
                match path::path_parent(p) {
                    None => None,
                    Some(dir) => match path::path_file_name(dir) {
                        None => None,
                        Some(dn) => Some((dn, MemoKind::Project)),
                    },
                }
            } else {
                match path::path_file_stem(p) {
                    None => None,
                    Some(st) => Some((st, MemoKind::File)),
                }
            },
        }
    }
}

/// The memo that the path `p` names, given the contents read from it (`None`
/// when it could not be read).
pub open spec fn memo_at(m: Memo, p: Seq<char>, content: Option<Seq<char>>) -> bool {
    match memo_stem(p) {
        None => false,
        Some((stem, kind)) => match parse_stem_spec(stem) {
            None => false,
            Some((t, slug)) => {
                &&& m.path@ == p
                &&& m.kind == kind
                &&& m.slug@ == slug
                &&& m.title@ == title_of_slug(slug)
                &&& (m.date.y(), m.date.m(), m.date.d()) == t
                &&& (m.year, m.week) == date::iso_week_of(t.0, t.1, t.2)
                &&& m.tags.deep_view() == match content {
                    Some(c) => parse_tags_spec(c),
                    None => seq![],
                }
            },
        },
    }
}

/// The view of an optional `&str`.
pub open spec fn opt_str_view(o: Option<&str>) -> Option<Seq<char>> {
    match o {
        Some(s) => Some(s@),
        None => None,
    }
}

/// `p` is where `memo_path` puts the memo of the day `d`, one of the years 0
/// to 9999, with a nonempty slug that holds no `/` and no `.` (as the slugs
/// of titles do not), under the memo directory `dir`.
pub open spec fn written_at(p: Seq<char>, dir: Seq<char>, d: Date, slug: Seq<char>) -> bool {
    &&& 0 <= d.y() <= 9999
    &&& date::is_calendar_date(d.y() as int, d.m() as int, d.d() as int)
    &&& slug.len() > 0
    &&& !slug.contains('/')
    &&& !slug.contains('.')
    &&& p == memo_path_of(dir, d, slug)
}

/// The file name at which a memo is written, and what `Path` makes of it.
proof fn lemma_written_at(p: Seq<char>, dir: Seq<char>, d: Date, slug: Seq<char>)
    requires
        written_at(p, dir, d, slug),
    ensures
        path::plain_name(path::last_segment(p)),
        path::last_segment(p) == stem_of(d, slug) + seq!['.', 'm', 'd'],
        path::stem_part(path::last_segment(p)) == stem_of(d, slug),
        path::ext_part(path::last_segment(p)) == Some(md_ext()),
        path::last_segment(p) != project_md(),
        dated_stem(stem_of(d, slug), d.y(), d.m(), d.d(), slug),
{
    let ymd = date::ymd_text(d.y() as int, d.m() as int, d.d() as int);
    let stem = stem_of(d, slug);
    let name = stem + seq!['.', 'm', 'd'];
    date::lemma_ymd_shape(d.y() as int, d.m() as int, d.d() as int);
    assert(!name.contains('/')) by {
        if name.contains('/') {
            let k = choose|k: int| 0 <= k < name.len() && name[k] == '/';
            if k < 10 {
                assert(name[k] == ymd[k]);
                if k != 4 && k != 7 {
                    assert('0' <= ymd[k] <= '9');
                }
            } else if k == 10 {
            } else if k < stem.len() {
                assert(name[k] == slug[k - 11]);
                assert(slug.contains('/'));
            }
        }
    }
    path::lemma_last_segment_join(dir_of(dir, d), name);
    assert(name[0] == ymd[0]);
    assert('0' <= ymd[0] <= '9');
    assert(name != project_md()) by {
        if name == project_md() {
            assert(name[0] == 'p');
        }
    }
    assert(name.len() >= 14);
    assert(name != seq!['.'] && name != seq!['.', '.']) by {
        if name == seq!['.'] || name == seq!['.', '.'] {
            assert(name.len() <= 2);
        }
    }
    assert(!md_ext().contains('.')) by {
        if md_ext().contains('.') {
            let k = choose|k: int| 0 <= k < 2 && md_ext()[k] == '.';
        }
    }
    assert(name =~= stem + seq!['.'] + md_ext());
    path::lemma_last_dot_ext(stem, md_ext());
    assert(name.take(stem.len() as int) =~= stem);
    assert(name.skip(stem.len() + 1int) =~= md_ext());
}

/// Where the memo of the day `d` with the slug `slug` lies once expanded
/// into a project: `<stem>/project.md` beside where its file was.
pub open spec fn project_path_of(dir: Seq<char>, d: Date, slug: Seq<char>) -> Seq<char> {
    path::join_path(path::join_path(dir_of(dir, d), stem_of(d, slug)), project_md())
}

/// `p` is where the memo of the day `d` (one of the years 0 to 9999) with a
/// nonempty slug that holds no `/` and no `.` lies once expanded into a
/// project.
pub open spec fn project_written_at(p: Seq<char>, dir: Seq<char>, d: Date, slug: Seq<char>) -> bool {
    &&& 0 <= d.y() <= 9999
    &&& date::is_calendar_date(d.y() as int, d.m() as int, d.d() as int)
    &&& slug.len() > 0
    &&& !slug.contains('/')
    &&& !slug.contains('.')
    &&& p == project_path_of(dir, d, slug)
}

/// The stem of a dated memo is a normal path component.
proof fn lemma_stem_plain(d: Date, slug: Seq<char>)
    requires
        0 <= d.y() <= 9999,
        date::is_calendar_date(d.y() as int, d.m() as int, d.d() as int),
        slug.len() > 0,
        !slug.contains('/'),
    ensures
        path::plain_name(stem_of(d, slug)),
        stem_of(d, slug).len() >= 12,
{
    let ymd = date::ymd_text(d.y() as int, d.m() as int, d.d() as int);
    let stem = stem_of(d, slug);
    date::lemma_ymd_shape(d.y() as int, d.m() as int, d.d() as int);
    assert(!stem.contains('/')) by {
        if stem.contains('/') {
            let k = choose|k: int| 0 <= k < stem.len() && stem[k] == '/';
            if k < 10 {
                assert(stem[k] == ymd[k]);
                if k != 4 && k != 7 {
                    assert('0' <= ymd[k] <= '9');
                }
            } else if k == 10 {
            } else {
                assert(stem[k] == slug[k - 11]);
                assert(slug.contains('/'));
            }
        }
    }
    assert(stem != seq!['.'] && stem != seq!['.', '.']) by {
        if stem == seq!['.'] || stem == seq!['.', '.'] {
            assert(stem.len() <= 2);
        }
    }
}

/// The project file at which an expanded memo lies, and what `Path` makes
/// of it.
proof fn lemma_project_written_at(p: Seq<char>, dir: Seq<char>, d: Date, slug: Seq<char>)
    requires
        project_written_at(p, dir, d, slug),
    ensures
        path::plain_name(path::last_segment(p)),
        path::last_segment(p) == project_md(),
        path::ext_part(project_md()) == Some(md_ext()),
        p.len() > path::last_segment(p).len(),
        path::dir_part(p) == path::join_path(dir_of(dir, d), stem_of(d, slug)),
        path::plain_name(path::last_segment(path::dir_part(p))),
        path::last_segment(path::dir_part(p)) == stem_of(d, slug),
        dated_stem(stem_of(d, slug), d.y(), d.m(), d.d(), slug),
{
    let stem = stem_of(d, slug);
    let x = path::join_path(dir_of(dir, d), stem);
    lemma_stem_plain(d, slug);
    path::lemma_last_segment_join(dir_of(dir, d), stem);
    let pm = project_md();
    assert(!pm.contains('/')) by {
        if pm.contains('/') {
            let k = choose|k: int| 0 <= k < 10 && pm[k] == '/';
        }
    }
    path::lemma_dir_part_join(x, pm);
    assert(pm != seq!['.'] && pm != seq!['.', '.']) by {
        assert(pm.len() == 10);
    }
    let head = seq!['p', 'r', 'o', 'j', 'e', 'c', 't'];
    assert(!md_ext().contains('.')) by {
        if md_ext().contains('.') {
            let k = choose|k: int| 0 <= k < 2 && md_ext()[k] == '.';
        }
    }
    assert(pm =~= head + seq!['.'] + md_ext());
    path::lemma_last_dot_ext(head, md_ext());
    assert(pm.skip(8) =~= md_ext());
    date::lemma_ymd_shape(d.y() as int, d.m() as int, d.d() as int);
    assert(stem =~= date::ymd_text(d.y() as int, d.m() as int, d.d() as int) + seq!['-'] + slug);
}

/// The memo file written at `memo_path_of(dir, d, slug)` lies in the folder
/// `dir_of(dir, d)` under the name `<stem>.md`, as `Path` sees it.
pub proof fn lemma_written_dir(p: Seq<char>, dir: Seq<char>, d: Date, slug: Seq<char>)
    requires
        written_at(p, dir, d, slug),
    ensures
        path::plain_name(path::last_segment(p)),
        p.len() > path::last_segment(p).len(),
        path::plain_name(path::last_segment(path::dir_part(p))),
        path::dir_part(p) == dir_of(dir, d),
        path::stem_part(path::last_segment(p)) == stem_of(d, slug),
{
    lemma_written_at(p, dir, d, slug);
    let w = date::iso_week_of(d.y(), d.m(), d.d());
    let wt = date::zero_pad(date::decimal(w.1 as nat), 2);
    let base = path::join_path(dir, date::int_text(w.0 as int));
    date::lemma_decimal_digits(w.1 as nat);
    assert(date::decimal(w.1 as nat).len() >= 1);
    assert(wt.len() >= 1);
    assert(!wt.contains('/')) by {
        if wt.contains('/') {
            let k = choose|k: int| 0 <= k < wt.len() && wt[k] == '/';
            if date::decimal(w.1 as nat).len() < 2 {
                let z = Seq::new((2 - date::decimal(w.1 as nat).len()) as nat, |_i: int| '0');
                assert(wt == z + date::decimal(w.1 as nat));
                if k >= z.len() {
                    assert(wt[k] == date::decimal(w.1 as nat)[k - z.len()]);
                }
            } else {
                assert(wt[k] == date::decimal(w.1 as nat)[k]);
            }
        }
    }
    path::lemma_last_segment_join(base, wt);
    assert(wt != seq!['.'] && wt != seq!['.', '.']) by {
        if wt == seq!['.'] || wt == seq!['.', '.'] {
            assert(wt[0] == '.');
            if date::decimal(w.1 as nat).len() < 2 {
                let z = Seq::new((2 - date::decimal(w.1 as nat).len()) as nat, |_i: int| '0');
                assert(wt == z + date::decimal(w.1 as nat));
                assert(z.len() >= 1);
                assert(wt[0] == z[0]);
            } else {
                assert(wt[0] == date::decimal(w.1 as nat)[0]);
            }
        }
    }
    let name = stem_of(d, slug) + seq!['.', 'm', 'd'];
    path::lemma_dir_part_join(dir_of(dir, d), name);
}

/// A slug that a memo path can be written with: not empty, no `/` and no
/// `.`.
pub open spec fn plain_slug(slug: Seq<char>) -> bool {
    slug.len() > 0 && !slug.contains('/') && !slug.contains('.')
}

/// The project directory of an expanded memo lies in the folder
/// `dir_of(dir, d)`, as `Path` sees it.
pub proof fn lemma_project_dir(p: Seq<char>, dir: Seq<char>, d: Date, slug: Seq<char>)
    requires
        project_written_at(p, dir, d, slug),
    ensures
        path::plain_name(path::last_segment(p)),
        p.len() > path::last_segment(p).len(),
        path::plain_name(path::last_segment(path::dir_part(p))),
        path::dir_part(p) == path::join_path(dir_of(dir, d), stem_of(d, slug)),
        path::plain_name(path::last_segment(path::dir_part(path::dir_part(p)))),
        path::dir_part(p).len() > path::last_segment(path::dir_part(p)).len(),
        path::dir_part(path::dir_part(p)) == dir_of(dir, d),
{
    lemma_project_written_at(p, dir, d, slug);
    let q = memo_path_of(dir, d, slug);
    assert(written_at(q, dir, d, slug));
    lemma_written_dir(q, dir, d, slug);
    lemma_stem_plain(d, slug);
    path::lemma_dir_part_join(dir_of(dir, d), stem_of(d, slug));
}

impl Memo {
    /// Parse a `.md` file path into a `Memo`, with the tags of `content`, the
    /// file's contents (`None` when it could not be read, which gives no
    /// tags). Returns `None` if the filename does not follow the
    /// `<iso_date>-<slug>.md` convention (caller should skip such files).
    ///
    /// - A file literally named `project.md` is a project: derive date/slug
    ///   from its parent directory name (`<iso_date>-<slug>`), kind = Project.
    /// - Any other `*.md` file: derive from its own stem, kind = File.
    ///
    /// A path that `memo_path` built for a date and a slug reads back as the
    /// file memo of that date and slug.
    pub fn from_path(p: &str, content: Option<&str>) -> (r: Option<Memo>)
        ensures
            r is Some <==> (memo_stem(p@) matches Some((stem, _)) && parse_stem_spec(stem) is Some),
            r matches Some(m) ==> memo_at(m, p@, opt_str_view(content)),
            forall|dir: Seq<char>, d: Date, slug: Seq<char>|
                #[trigger] written_at(p@, dir, d, slug) ==> (r matches Some(m) && m.kind == MemoKind::File
                    && m.date == d && m.slug@ == slug && m.title@ == title_of_slug(slug)),
            forall|dir: Seq<char>, d: Date, slug: Seq<char>|
                #[trigger] project_written_at(p@, dir, d, slug) ==> (r matches Some(m) && m.kind
                    == MemoKind::Project && m.date == d && m.slug@ == slug && m.title@ == title_of_slug(slug)),
    {
        let name = match path::file_name(p) {
            Some(n) => n,
            None => {
                proof {
                    assert forall|dir: Seq<char>, d: Date, slug: Seq<char>|
                        #[trigger] written_at(p@, dir, d, slug) implies false by {
                        lemma_written_at(p@, dir, d, slug);
                    }
                    assert forall|dir: Seq<char>, d: Date, slug: Seq<char>|
                        #[trigger] project_written_at(p@, dir, d, slug) implies false by {
                        lemma_project_written_at(p@, dir, d, slug);
                    }
                }
                return None;
            },
        };
        match path::extension(p) {
            Some(e) => {
                let ev = text::chars_of(e.as_str());
                if !(ev.len() == 2 && ev[0] == 'm' && ev[1] == 'd') {
                    proof {
                        if ev@ == md_ext() {
                            assert(ev@[0] == 'm' && ev@[1] == 'd');
                        }
                        assert forall|dir: Seq<char>, d: Date, slug: Seq<char>|
                            #[trigger] written_at(p@, dir, d, slug) implies false by {
                            lemma_written_at(p@, dir, d, slug);
                        }
                        assert forall|dir: Seq<char>, d: Date, slug: Seq<char>|
                            #[trigger] project_written_at(p@, dir, d, slug) implies false by {
                            lemma_project_written_at(p@, dir, d, slug);
                        }
                    }
                    return None;
                }
                assert(ev@ =~= md_ext());
            },
            None => {
                proof {
                    assert forall|dir: Seq<char>, d: Date, slug: Seq<char>|
                        #[trigger] written_at(p@, dir, d, slug) implies false by {
                        lemma_written_at(p@, dir, d, slug);
                    }
                    assert forall|dir: Seq<char>, d: Date, slug: Seq<char>|
                        #[trigger] project_written_at(p@, dir, d, slug) implies false by {
                        lemma_project_written_at(p@, dir, d, slug);
                    }
                }
                return None;
            },
        }
        let nv = text::chars_of(name.as_str());
        let proj = vec!['p', 'r', 'o', 'j', 'e', 'c', 't', '.', 'm', 'd'];
        let is_project = text::eq_range(&nv, 0, nv.len(), &proj);
        proof {
            assert(nv@.subrange(0, nv.len() as int) =~= nv@);
        }
        let (stem, kind) = if is_project {
            proof {
                assert forall|dir: Seq<char>, d: Date, slug: Seq<char>|
                    #[trigger] written_at(p@, dir, d, slug) implies false by {
                    lemma_written_at(p@, dir, d, slug);
                }
            }
            let dir = match path::parent(p) {
                Some(d) => d,
                None => {
                    proof {
                        assert forall|dr: Seq<char>, d: Date, slug: Seq<char>|
                            #[trigger] project_written_at(p@, dr, d, slug) implies false by {
                            lemma_project_written_at(p@, dr, d, slug);
                        }
                    }
                    return None;
                },
            };
            match path::file_name(dir.as_str()) {
                Some(dn) => {
                    proof {
                        assert forall|dr: Seq<char>, d: Date, slug: Seq<char>|
                            #[trigger] project_written_at(p@, dr, d, slug) implies dn@ == stem_of(d, slug) by {
                            lemma_project_written_at(p@, dr, d, slug);
                        }
                    }
                    (dn, MemoKind::Project)
                },
                None => {
                    proof {
                        assert forall|dr: Seq<char>, d: Date, slug: Seq<char>|
                            #[trigger] project_written_at(p@, dr, d, slug) implies false by {
                            lemma_project_written_at(p@, dr, d, slug);
                        }
                    }
                    return None;
                },
            }
        } else {
            proof {
                assert forall|dr: Seq<char>, d: Date, slug: Seq<char>|
                    #[trigger] project_written_at(p@, dr, d, slug) implies false by {
                    lemma_project_written_at(p@, dr, d, slug);
                }
            }
            match path::file_stem(p) {
                Some(st) => (st, MemoKind::File),
                None => {
                    proof {
                        assert forall|dir: Seq<char>, d: Date, slug: Seq<char>|
                            #[trigger] written_at(p@, dir, d, slug) implies false by {
                            lemma_written_at(p@, dir, d, slug);
                        }
                        assert forall|dir: Seq<char>, d: Date, slug: Seq<char>|
                            #[trigger] project_written_at(p@, dir, d, slug) implies false by {
                            lemma_project_written_at(p@, dir, d, slug);
                        }
                    }
                    return None;
                },
            }
        };
        let (date, slug) = match parse_stem(stem.as_str()) {
            Some(x) => x,
            None => {
                proof {
                    assert forall|dir: Seq<char>, d: Date, sl: Seq<char>|
                        #[trigger] written_at(p@, dir, d, sl) implies false by {
                        lemma_written_at(p@, dir, d, sl);
                        assert(dated_stem(stem@, d.y(), d.m(), d.d(), sl));
                    }
                    assert forall|dir: Seq<char>, d: Date, sl: Seq<char>|
                        #[trigger] project_written_at(p@, dir, d, sl) implies false by {
                        lemma_project_written_at(p@, dir, d, sl);
                        assert(dated_stem(stem@, d.y(), d.m(), d.d(), sl));
                    }
                }
                return None;
            },
        };
        let (year, week) = date.iso_week();
        let tags = match content {
            Some(c) => parse_tags(c),
            None => Vec::new(),
        };
        let title = title_from_slug(slug.as_str());
        let m = Memo { title, slug, date, year, week, path: p.to_string(), kind, tags };
        proof {
            assert(m.tags.deep_view() =~= match opt_str_view(content) {
                Some(c) => parse_tags_spec(c),
                None => seq![],
            });
            assert(m.path@ == p@);
            assert(memo_stem(p@) == Some((stem@, kind)));
            assert forall|dir: Seq<char>, d: Date, sl: Seq<char>|
                #[trigger] written_at(p@, dir, d, sl) implies m.kind == MemoKind::File && m.date == d && m.slug@
                == sl && m.title@ == title_of_slug(sl) by {
                lemma_written_at(p@, dir, d, sl);
                assert(dated_stem(stem@, d.y(), d.m(), d.d(), sl));
                m.date.lemma_same_date(d);
            }
            assert forall|dir: Seq<char>, d: Date, sl: Seq<char>|
                #[trigger] project_written_at(p@, dir, d, sl) implies m.kind == MemoKind::Project && m.date == d
                && m.slug@ == sl && m.title@ == title_of_slug(sl) by {
                lemma_project_written_at(p@, dir, d, sl);
                assert(dated_stem(stem@, d.y(), d.m(), d.d(), sl));
                m.date.lemma_same_date(d);
            }
        }
        Some(m)
    }
}

/// The `<memo_dir>/<year>/<week>` directory of a date: its ISO week-numbering
/// year and its ISO week zero-padded to two digits.
pub open spec fn dir_of(memo_dir: Seq<char>, d: Date) -> Seq<char> {
    let w = date::iso_week_of(d.y(), d.m(), d.d());
    path::join_path(
        path::join_path(memo_dir, date::int_text(w.0 as int)),
        date::zero_pad(date::decimal(w.1 as nat), 2),
    )
}

/// The `<memo_dir>/<year>/<week>` directory for a date.
///
/// The year is the ISO week-numbering year of the date (not its calendar
/// year), and the week is zero-padded to two digits, e.g. `<memo_dir>/2026/24`.
pub fn dir_for(memo_dir: &str, date: Date) -> (r: String)
    ensures
        r@ == dir_of(memo_dir@, date),
{
    let (y, w) = date.iso_week();
    let mut v = text::chars_of(memo_dir);
    let mut yc: Vec<char> = Vec::new();
    date::push_int(&mut yc, y as i64);
    path::push_component(&mut v, &yc);
    let mut wc: Vec<char> = Vec::new();
    date::push_padded(&mut wc, w as u64, 2);
    path::push_component(&mut v, &wc);
    text::string_from_chars(v.as_slice())
}

/// `<iso_date>-<slug>`.
pub open spec fn stem_of(d: Date, slug: Seq<char>) -> Seq<char> {
    date::ymd_text(d.y() as int, d.m() as int, d.d() as int) + seq!['-'] + slug
}

/// The bare file stem for a memo: `<iso_date>-<slug>` (no extension).
pub fn stem_for(date: Date, slug: &str) -> (r: String)
    ensures
        r@ == stem_of(date, slug@),
{
    let mut v = text::chars_of(date.to_ymd_string().as_str());
    v.push('-');
    text::push_str(&mut v, slug);
    text::string_from_chars(v.as_slice())
}

/// `<memo_dir>/<year>/<week>/<iso_date>-<slug>.md`.
pub open spec fn memo_path_of(memo_dir: Seq<char>, d: Date, slug: Seq<char>) -> Seq<char> {
    path::join_path(dir_of(memo_dir, d), stem_of(d, slug) + seq!['.', 'm', 'd'])
}

/// The `.md` path for a (date, slug) memo file:
/// `<memo_dir>/<year>/<week>/<iso_date>-<slug>.md`.
pub fn memo_path(memo_dir: &str, date: Date, slug: &str) -> (r: String)
    ensures
        r@ == memo_path_of(memo_dir@, date, slug@),
{
    let mut v = text::chars_of(dir_for(memo_dir, date).as_str());
    let mut f = text::chars_of(stem_for(date, slug).as_str());
    f.push('.');
    f.push('m');
    f.push('d');
    path::push_component(&mut v, &f);
    text::string_from_chars(v.as_slice())
}

} // verus!
