//! Character-level text: whitespace, trimming, prefixes, lines and the
//! conversions between `str` and vectors of `char`.
//!
//! Text is modelled as `Seq<char>` (the view of `str` and `String`). The
//! executable helpers here work on a `Vec<char>` and a half-open range of it,
//! so that callers can walk lines without copying.
use vstd::prelude::*;

verus! {

/// `char::is_whitespace`: the Unicode `White_Space` property, which is this
/// fixed list of code points.
pub open spec fn is_white(c: char) -> bool {
    let u = c as u32;
    ||| 0x09 <= u <= 0x0D
    ||| u == 0x20 || u == 0x85 || u == 0xA0 || u == 0x1680
    ||| 0x2000 <= u <= 0x200A
    ||| u == 0x2028 || u == 0x2029 || u == 0x202F || u == 0x205F || u == 0x3000
}

/// Executable `is_white`.
pub fn is_whitespace(c: char) -> (r: bool)
    ensures
        r == is_white(c),
{
    let u = c as u32;
    (0x09 <= u && u <= 0x0D) || u == 0x20 || u == 0x85 || u == 0xA0 || u == 0x1680 || (0x2000
        <= u && u <= 0x200A) || u == 0x2028 || u == 0x2029 || u == 0x202F || u == 0x205F || u
        == 0x3000
}

/// Classes of characters that text is trimmed by.
pub enum CharClass {
    /// `char::is_whitespace`.
    White,
    /// A double or single quote.
    Quote,
    /// The newline `'\n'`.
    Newline,
    /// The dash `'-'`.
    Dash,
}

/// Membership in a character class.
pub open spec fn in_class(k: CharClass, c: char) -> bool {
    match k {
        CharClass::White => is_white(c),
        CharClass::Quote => c == '"' || c == '\'',
        CharClass::Newline => c == '\n',
        CharClass::Dash => c == '-',
    }
}

/// Executable `in_class`.
pub fn is_in_class(k: &CharClass, c: char) -> (r: bool)
    ensures
        r == in_class(*k, c),
{
    match k {
        CharClass::White => is_whitespace(c),
        CharClass::Quote => c == '"' || c == '\'',
        CharClass::Newline => c == '\n',
        CharClass::Dash => c == '-',
    }
}

/// Number of characters of class `k` at the start of `s`.
pub open spec fn lead_run(s: Seq<char>, k: CharClass) -> nat
    decreases s.len(),
{
    if s.len() > 0 && in_class(k, s[0]) {
        1 + lead_run(s.drop_first(), k)
    } else {
        0
    }
}

/// Number of characters of class `k` at the end of `s`.
pub open spec fn trail_run(s: Seq<char>, k: CharClass) -> nat
    decreases s.len(),
{
    if s.len() > 0 && in_class(k, s.last()) {
        1 + trail_run(s.drop_last(), k)
    } else {
        0
    }
}

/// `str::trim_start_matches` with the class `k`.
pub open spec fn trim_start_by(s: Seq<char>, k: CharClass) -> Seq<char> {
    s.skip(lead_run(s, k) as int)
}

/// `str::trim_end_matches` with the class `k`.
pub open spec fn trim_end_by(s: Seq<char>, k: CharClass) -> Seq<char> {
    s.take(s.len() - trail_run(s, k))
}

/// `str::trim_matches` with the class `k`.
pub open spec fn trim_by(s: Seq<char>, k: CharClass) -> Seq<char> {
    trim_start_by(trim_end_by(s, k), k)
}

/// `str::trim`.
pub open spec fn trim(s: Seq<char>) -> Seq<char> {
    trim_by(s, CharClass::White)
}

pub proof fn lemma_lead_run_bound(s: Seq<char>, k: CharClass)
    ensures
        lead_run(s, k) <= s.len(),
        forall|j: int| 0 <= j < lead_run(s, k) ==> in_class(k, #[trigger] s[j]),
        lead_run(s, k) < s.len() ==> !in_class(k, s[lead_run(s, k) as int]),
    decreases s.len(),
{
    if s.len() > 0 && in_class(k, s[0]) {
        let t = s.drop_first();
        lemma_lead_run_bound(t, k);
        assert forall|j: int| 0 <= j < lead_run(s, k) implies in_class(k, #[trigger] s[j]) by {
            if j > 0 {
                assert(s[j] == t[j - 1]);
            }
        }
    }
}

pub proof fn lemma_trail_run_bound(s: Seq<char>, k: CharClass)
    ensures
        trail_run(s, k) <= s.len(),
        forall|j: int| s.len() - trail_run(s, k) <= j < s.len() ==> in_class(k, #[trigger] s[j]),
        trail_run(s, k) < s.len() ==> !in_class(k, s[s.len() - 1 - trail_run(s, k)]),
    decreases s.len(),
{
    if s.len() > 0 && in_class(k, s.last()) {
        let t = s.drop_last();
        lemma_trail_run_bound(t, k);
        assert forall|j: int| s.len() - trail_run(s, k) <= j < s.len() implies in_class(
            k,
            #[trigger] s[j],
        ) by {
            if j < s.len() - 1 {
                assert(s[j] == t[j]);
            }
        }
        if trail_run(s, k) < s.len() {
            assert(s[s.len() - 1 - trail_run(s, k)] == t[t.len() - 1 - trail_run(t, k)]);
        }
    } else if s.len() > 0 {
        assert(s.last() == s[s.len() - 1]);
    }
}

/// `lead_run` is the length of the run of class `k` that starts `s`.
pub proof fn lemma_lead_run_is(s: Seq<char>, k: CharClass, n: int)
    requires
        0 <= n <= s.len(),
        forall|j: int| 0 <= j < n ==> in_class(k, #[trigger] s[j]),
        n == s.len() || !in_class(k, s[n]),
    ensures
        lead_run(s, k) == n,
    decreases n,
{
    if n > 0 {
        let t = s.drop_first();
        assert forall|j: int| 0 <= j < n - 1 implies in_class(k, #[trigger] t[j]) by {
            assert(t[j] == s[j + 1]);
        }
        if n - 1 < t.len() {
            assert(t[n - 1] == s[n]);
        }
        lemma_lead_run_is(t, k, n - 1);
    }
}

/// `trail_run` is the length of the run of class `k` that ends `s`.
pub proof fn lemma_trail_run_is(s: Seq<char>, k: CharClass, n: int)
    requires
        0 <= n <= s.len(),
        forall|j: int| s.len() - n <= j < s.len() ==> in_class(k, #[trigger] s[j]),
        n == s.len() || !in_class(k, s[s.len() - 1 - n]),
    ensures
        trail_run(s, k) == n,
    decreases n,
{
    if n > 0 {
        let t = s.drop_last();
        assert forall|j: int| t.len() - (n - 1) <= j < t.len() implies in_class(
            k,
            #[trigger] t[j],
        ) by {
            assert(t[j] == s[j]);
        }
        if n - 1 < t.len() {
            assert(t[t.len() - 1 - (n - 1)] == s[s.len() - 1 - n]);
        }
        lemma_trail_run_is(t, k, n - 1);
    } else {
        if s.len() > 0 {
            assert(s.last() == s[s.len() - 1]);
        }
    }
}

/// The bounds, within `lo..hi`, of `s[lo..hi]` with the class `k` trimmed
/// from its start (when `front`) and from its end (when `back`).
pub fn trim_range_by(s: &Vec<char>, lo: usize, hi: usize, k: &CharClass, front: bool, back: bool) -> (r: (usize, usize))
    requires
        lo <= hi <= s.len(),
    ensures
        lo <= r.0 <= r.1 <= hi,
        ({
            let sub = s@.subrange(lo as int, hi as int);
            let e = if back { trim_end_by(sub, *k) } else { sub };
            s@.subrange(r.0 as int, r.1 as int) == if front { trim_start_by(e, *k) } else { e }
        }),
{
    let ghost sub = s@.subrange(lo as int, hi as int);
    let mut j = hi;
    if back {
        while j > lo && is_in_class(k, s[j - 1])
            invariant
                lo <= j <= hi <= s.len(),
                forall|m: int| j <= m < hi ==> in_class(*k, #[trigger] s@[m]),
            decreases j,
        {
            j = j - 1;
        }
        proof {
            assert forall|m: int| sub.len() - (hi - j) <= m < sub.len() implies in_class(
                *k,
                #[trigger] sub[m],
            ) by {
                assert(sub[m] == s@[lo + m]);
            }
            if hi - j < sub.len() {
                assert(sub[sub.len() - 1 - (hi - j)] == s@[j - 1]);
            }
            lemma_trail_run_is(sub, *k, hi - j);
            assert(trim_end_by(sub, *k) =~= s@.subrange(lo as int, j as int));
        }
    } else {
        assert(sub =~= s@.subrange(lo as int, j as int));
    }
    let ghost te = s@.subrange(lo as int, j as int);
    let mut i = lo;
    if front {
        while i < j && is_in_class(k, s[i])
            invariant
                lo <= i <= j <= hi <= s.len(),
                forall|m: int| lo <= m < i ==> in_class(*k, #[trigger] s@[m]),
            decreases j - i,
        {
            i = i + 1;
        }
        proof {
            assert forall|m: int| 0 <= m < i - lo implies in_class(*k, #[trigger] te[m]) by {
                assert(te[m] == s@[lo + m]);
            }
            if i - lo < te.len() {
                assert(te[i - lo] == s@[i as int]);
            }
            lemma_lead_run_is(te, *k, i - lo);
            assert(trim_start_by(te, *k) =~= s@.subrange(i as int, j as int));
        }
    }
    (i, j)
}

/// The bounds, within `lo..hi`, of the trimmed text of `s[lo..hi]`.
pub fn trim_range(s: &Vec<char>, lo: usize, hi: usize) -> (r: (usize, usize))
    requires
        lo <= hi <= s.len(),
    ensures
        lo <= r.0 <= r.1 <= hi,
        s@.subrange(r.0 as int, r.1 as int) == trim(s@.subrange(lo as int, hi as int)),
{
    trim_range_by(s, lo, hi, &CharClass::White, true, true)
}

/// `s` starts with `p`.
pub open spec fn starts_with(s: Seq<char>, p: Seq<char>) -> bool {
    p.len() <= s.len() && s.take(p.len() as int) == p
}

/// Whether `s[lo..hi]` starts with `p`.
pub fn starts_with_at(s: &Vec<char>, lo: usize, hi: usize, p: &Vec<char>) -> (r: bool)
    requires
        lo <= hi <= s.len(),
    ensures
        r == starts_with(s@.subrange(lo as int, hi as int), p@),
{
    if p.len() > hi - lo {
        return false;
    }
    let mut k: usize = 0;
    while k < p.len()
        invariant
            lo <= hi <= s.len(),
            p.len() <= hi - lo,
            k <= p.len(),
            forall|m: int| 0 <= m < k ==> s@[lo + m] == p@[m],
        decreases p.len() - k,
    {
        if s[lo + k] != p[k] {
            proof {
                let sub = s@.subrange(lo as int, hi as int);
                assert(sub.take(p.len() as int)[k as int] == s@[lo + k]);
            }
            return false;
        }
        k = k + 1;
    }
    proof {
        let sub = s@.subrange(lo as int, hi as int);
        assert(sub.take(p.len() as int) =~= p@);
    }
    true
}

/// The characters of `s`, in order.
pub fn chars_of(s: &str) -> (v: Vec<char>)
    ensures
        v@ == s@,
{
    let mut v: Vec<char> = Vec::new();
    for c in it: s.chars()
        invariant
            v@ == it.seq().take(it.index() as int),
    {
        v.push(c);
    }
    v
}

/// Collects characters into a `String`.
///
/// Trusted: `String`'s `FromIterator<&char>` appends the characters in order,
/// so the string's characters are exactly `v`.
#[verifier::external_body]
pub(crate) fn string_from_chars(v: &[char]) -> (s: String)
    ensures
        s@ == v@,
{
    v.iter().collect()
}


/// Index of the first `c` in `s`, or `s.len()` when there is none.
pub open spec fn find_char(s: Seq<char>, c: char) -> nat
    decreases s.len(),
{
    if s.len() == 0 {
        0
    } else if s[0] == c {
        0
    } else {
        1 + find_char(s.drop_first(), c)
    }
}

pub proof fn lemma_find_char(s: Seq<char>, c: char)
    ensures
        find_char(s, c) <= s.len(),
        find_char(s, c) < s.len() ==> s[find_char(s, c) as int] == c,
        forall|j: int| 0 <= j < find_char(s, c) ==> s[j] != c,
    decreases s.len(),
{
    if s.len() > 0 && s[0] != c {
        let t = s.drop_first();
        lemma_find_char(t, c);
        assert forall|j: int| 0 <= j < find_char(s, c) implies s[j] != c by {
            if j > 0 {
                assert(s[j] == t[j - 1]);
            }
        }
    }
}

/// `find_char` is the first position that holds `c`.
pub proof fn lemma_find_char_is(s: Seq<char>, c: char, k: int)
    requires
        0 <= k <= s.len(),
        forall|j: int| 0 <= j < k ==> s[j] != c,
        k == s.len() || s[k] == c,
    ensures
        find_char(s, c) == k,
    decreases k,
{
    if k > 0 {
        let t = s.drop_first();
        assert forall|j: int| 0 <= j < k - 1 implies t[j] != c by {
            assert(t[j] == s[j + 1]);
        }
        if k - 1 < t.len() {
            assert(t[k - 1] == s[k]);
        }
        lemma_find_char_is(t, c, k - 1);
    }
}

/// `str::split_inclusive('\n')`: the lines of `s`, each keeping its `'\n'`.
/// Every line but the last ends in `'\n'`; the last one may not.
pub open spec fn lines_incl(s: Seq<char>) -> Seq<Seq<char>>
    decreases s.len(),
{
    if s.len() == 0 {
        seq![]
    } else {
        let f = find_char(s, '\n') as int;
        if f < s.len() {
            seq![s.take(f + 1)] + lines_incl(s.skip(f + 1))
        } else {
            seq![s]
        }
    }
}

/// `str::split(c)`: the pieces of `s` between occurrences of `c`.
pub open spec fn split_on(s: Seq<char>, c: char) -> Seq<Seq<char>>
    decreases s.len(),
{
    let f = find_char(s, c) as int;
    if f < s.len() {
        seq![s.take(f)] + split_on(s.skip(f + 1), c)
    } else {
        seq![s]
    }
}

/// The texts that the ranges `r` select from `s`.
pub open spec fn range_texts(s: Seq<char>, r: Seq<(usize, usize)>) -> Seq<Seq<char>> {
    r.map_values(|p: (usize, usize)| s.subrange(p.0 as int, p.1 as int))
}

/// The ranges `r` cover `lo..hi` with nonempty, adjacent pieces, in order.
pub open spec fn tiles(r: Seq<(usize, usize)>, lo: int, hi: int) -> bool {
    &&& r.len() == 0 ==> lo == hi
    &&& r.len() > 0 ==> r[0].0 == lo && r.last().1 == hi
    &&& forall|i: int| 0 <= i < r.len() ==> (#[trigger] r[i]).0 < r[i].1
    &&& forall|i: int| 0 <= i < r.len() - 1 ==> (#[trigger] r[i]).1 == r[i + 1].0
}

/// Pieces that tile `lo..hi` put back together give `s[lo..hi]`.
pub proof fn lemma_tiles_flatten(s: Seq<char>, r: Seq<(usize, usize)>, lo: int, hi: int)
    requires
        tiles(r, lo, hi),
        0 <= lo <= hi <= s.len(),
    ensures
        range_texts(s, r).flatten() == s.subrange(lo, hi),
    decreases r.len(),
{
    if r.len() > 0 {
        let t = r.skip(1);
        let m = r[0].1 as int;
        if r.len() > 1 {
            lemma_tiles_skip(r, lo, hi, 1);
            lemma_tiles_bounds(r, lo, hi, 1);
            lemma_tiles_bounds(r, lo, hi, 0);
        } else {
            assert(r.last() == r[0]);
            lemma_tiles_bounds(r, lo, hi, 0);
        }
        lemma_tiles_flatten(s, t, m, hi);
        lemma_range_texts_first(s, r);
        assert(s.subrange(lo, hi) =~= s.subrange(lo, m) + s.subrange(m, hi));
    }
}

proof fn lemma_range_texts_first(s: Seq<char>, r: Seq<(usize, usize)>)
    requires
        r.len() > 0,
    ensures
        range_texts(s, r).flatten() == s.subrange(r[0].0 as int, r[0].1 as int) + range_texts(
            s,
            r.skip(1),
        ).flatten(),
{
    assert(range_texts(s, r).drop_first() =~= range_texts(s, r.skip(1)));
}

/// Every piece of a tiling lies within its bounds.
pub proof fn lemma_tiles_bounds(r: Seq<(usize, usize)>, lo: int, hi: int, k: int)
    requires
        tiles(r, lo, hi),
        0 <= k < r.len(),
    ensures
        lo <= r[k].0 < r[k].1 <= hi,
    decreases r.len() - k,
{
    if k < r.len() - 1 {
        lemma_tiles_bounds(r, lo, hi, k + 1);
    } else {
        assert(r.last() == r[k]);
    }
    if k > 0 {
        lemma_tiles_lower(r, lo, hi, k);
    }
}

proof fn lemma_tiles_lower(r: Seq<(usize, usize)>, lo: int, hi: int, k: int)
    requires
        tiles(r, lo, hi),
        0 <= k < r.len(),
    ensures
        lo <= r[k].0,
    decreases k,
{
    if k > 0 {
        lemma_tiles_lower(r, lo, hi, k - 1);
        assert(r[k - 1].1 == r[k].0);
    }
}

/// The suffix of a tiling from piece `k` tiles the rest.
pub proof fn lemma_tiles_skip(r: Seq<(usize, usize)>, lo: int, hi: int, k: int)
    requires
        tiles(r, lo, hi),
        0 <= k < r.len(),
    ensures
        tiles(r.skip(k), r[k].0 as int, hi),
{
    let t = r.skip(k);
    assert forall|i: int| 0 <= i < t.len() implies (#[trigger] t[i]).0 < t[i].1 by {
        assert(t[i] == r[i + k]);
    }
    assert forall|i: int| 0 <= i < t.len() - 1 implies (#[trigger] t[i]).1 == t[i + 1].0 by {
        assert(t[i] == r[i + k]);
        assert(t[i + 1] == r[i + k + 1]);
    }
    assert(t[0] == r[k]);
    assert(t.last() == r.last());
}

/// The end of the line that starts at `pos` (just past its `'\n'`, or `hi`).
pub fn line_end(s: &Vec<char>, pos: usize, hi: usize) -> (e: usize)
    requires
        pos < hi <= s.len(),
    ensures
        pos < e <= hi,
        ({
            let sub = s@.subrange(pos as int, hi as int);
            let f = find_char(sub, '\n') as int;
            e == pos + (if f < sub.len() {
                f + 1
            } else {
                sub.len() as int
            })
        }),
{
    let ghost sub = s@.subrange(pos as int, hi as int);
    let mut k = pos;
    while k < hi && s[k] != '\n'
        invariant
            pos <= k <= hi <= s.len(),
            forall|j: int| pos <= j < k ==> s@[j] != '\n',
        decreases hi - k,
    {
        k = k + 1;
    }
    proof {
        assert forall|j: int| 0 <= j < k - pos implies sub[j] != '\n' by {
            assert(sub[j] == s@[pos + j]);
        }
        if k < hi {
            assert(sub[k - pos] == s@[k as int]);
        }
        lemma_find_char_is(sub, '\n', k - pos);
    }
    if k < hi {
        k + 1
    } else {
        hi
    }
}

/// The lines of `s[lo..hi]` (as by `lines_incl`), given by their ranges in `s`.
pub fn split_lines(s: &Vec<char>, lo: usize, hi: usize) -> (r: Vec<(usize, usize)>)
    requires
        lo <= hi <= s.len(),
    ensures
        range_texts(s@, r@) == lines_incl(s@.subrange(lo as int, hi as int)),
        tiles(r@, lo as int, hi as int),
        within(r@, s.len() as int),
{
    let mut r: Vec<(usize, usize)> = Vec::new();
    let mut pos = lo;
    while pos < hi
        invariant
            lo <= pos <= hi <= s.len(),
            range_texts(s@, r@) + lines_incl(s@.subrange(pos as int, hi as int)) == lines_incl(
                s@.subrange(lo as int, hi as int),
            ),
            tiles(r@, lo as int, pos as int),
            within(r@, pos as int),
        decreases hi - pos,
    {
        let e = line_end(s, pos, hi);
        proof {
            let sub = s@.subrange(pos as int, hi as int);
            let f = find_char(sub, '\n') as int;
            lemma_find_char(sub, '\n');
            if f < sub.len() {
                assert(sub.take(f + 1) =~= s@.subrange(pos as int, e as int));
                assert(sub.skip(f + 1) =~= s@.subrange(e as int, hi as int));
            } else {
                assert(sub =~= s@.subrange(pos as int, e as int));
                assert(s@.subrange(e as int, hi as int) =~= Seq::<char>::empty());
            }
        }
        let ghost old_r = r@;
        r.push((pos, e));
        proof {
            assert(range_texts(s@, r@) =~= range_texts(s@, old_r) + seq![
                s@.subrange(pos as int, e as int),
            ]);
            if old_r.len() > 0 {
                assert(r@[old_r.len() - 1] == old_r.last());
            }
            assert(r@[0].0 == lo);
        }
        pos = e;
    }
    proof {
        assert(s@.subrange(pos as int, hi as int) =~= Seq::<char>::empty());
        assert(range_texts(s@, r@) + Seq::<Seq<char>>::empty() =~= range_texts(s@, r@));
    }
    r
}

/// Appends `s[lo..hi]` to `out`.
pub fn push_range(out: &mut Vec<char>, s: &Vec<char>, lo: usize, hi: usize)
    requires
        lo <= hi <= s.len(),
    ensures
        final(out)@ == old(out)@ + s@.subrange(lo as int, hi as int),
{
    let ghost start = out@;
    let mut k = lo;
    while k < hi
        invariant
            lo <= k <= hi <= s.len(),
            out@ == start + s@.subrange(lo as int, k as int),
        decreases hi - k,
    {
        out.push(s[k]);
        proof {
            assert(s@.subrange(lo as int, k + 1) =~= s@.subrange(lo as int, k as int).push(
                s@[k as int],
            ));
        }
        k = k + 1;
    }
}

/// Appends all of `p` to `out`.
pub fn push_all(out: &mut Vec<char>, p: &Vec<char>)
    ensures
        final(out)@ == old(out)@ + p@,
{
    push_range(out, p, 0, p.len());
    proof {
        assert(p@.subrange(0, p@.len() as int) =~= p@);
    }
}


/// Every range of `r` is an ordered range inside `0..n`.
pub open spec fn within(r: Seq<(usize, usize)>, n: int) -> bool {
    forall|i: int| 0 <= i < r.len() ==> (#[trigger] r[i]).0 <= r[i].1 <= n
}

/// Where piece `k` of a tiling of `lo..hi` starts (`hi` past the last piece).
pub open spec fn piece_start(r: Seq<(usize, usize)>, k: int, hi: int) -> int {
    if k < r.len() {
        r[k].0 as int
    } else {
        hi
    }
}

/// The pieces before `k` and the pieces from `k` put back together.
pub proof fn lemma_tiles_split(s: Seq<char>, r: Seq<(usize, usize)>, lo: int, hi: int, k: int)
    requires
        tiles(r, lo, hi),
        0 <= lo <= hi <= s.len(),
        0 <= k <= r.len(),
    ensures
        lo <= piece_start(r, k, hi) <= hi,
        range_texts(s, r).take(k).flatten() == s.subrange(lo, piece_start(r, k, hi)),
        range_texts(s, r).skip(k).flatten() == s.subrange(piece_start(r, k, hi), hi),
{
    let m = piece_start(r, k, hi);
    if k < r.len() {
        lemma_tiles_bounds(r, lo, hi, k);
        lemma_tiles_skip(r, lo, hi, k);
        lemma_tiles_flatten(s, r.skip(k), m, hi);
        assert(range_texts(s, r).skip(k) =~= range_texts(s, r.skip(k)));
        if k > 0 {
            lemma_tiles_take(r, lo, hi, k);
            lemma_tiles_flatten(s, r.take(k), lo, m);
            assert(range_texts(s, r).take(k) =~= range_texts(s, r.take(k)));
        } else {
            assert(range_texts(s, r).take(k) =~= Seq::<Seq<char>>::empty());
            assert(s.subrange(lo, m) =~= Seq::<char>::empty());
        }
    } else {
        lemma_tiles_flatten(s, r, lo, hi);
        assert(range_texts(s, r).take(k) =~= range_texts(s, r));
        assert(range_texts(s, r).skip(k) =~= Seq::<Seq<char>>::empty());
        assert(s.subrange(hi, hi) =~= Seq::<char>::empty());
    }
}

/// The pieces of a tiling before piece `k` tile up to where piece `k` starts.
pub proof fn lemma_tiles_take(r: Seq<(usize, usize)>, lo: int, hi: int, k: int)
    requires
        tiles(r, lo, hi),
        0 < k < r.len(),
    ensures
        tiles(r.take(k), lo, r[k].0 as int),
{
    let t = r.take(k);
    assert forall|i: int| 0 <= i < t.len() implies (#[trigger] t[i]).0 < t[i].1 by {
        assert(t[i] == r[i]);
    }
    assert forall|i: int| 0 <= i < t.len() - 1 implies (#[trigger] t[i]).1 == t[i + 1].0 by {
        assert(t[i] == r[i]);
        assert(t[i + 1] == r[i + 1]);
    }
    assert(t[0] == r[0]);
    assert(t.last() == r[k - 1]);
}

/// The first index from `i` whose line satisfies `p`, or `ls.len()`.
pub open spec fn first_from(ls: Seq<Seq<char>>, p: spec_fn(Seq<char>) -> bool, i: int) -> int
    decreases ls.len() - i,
{
    if i < 0 || i >= ls.len() {
        ls.len() as int
    } else if p(ls[i]) {
        i
    } else {
        first_from(ls, p, i + 1)
    }
}

pub proof fn lemma_first_from(ls: Seq<Seq<char>>, p: spec_fn(Seq<char>) -> bool, i: int)
    requires
        0 <= i <= ls.len(),
    ensures
        i <= first_from(ls, p, i) <= ls.len(),
        first_from(ls, p, i) < ls.len() ==> p(ls[first_from(ls, p, i)]),
        forall|j: int| i <= j < first_from(ls, p, i) ==> !p(#[trigger] ls[j]),
    decreases ls.len() - i,
{
    if i < ls.len() && !p(ls[i]) {
        lemma_first_from(ls, p, i + 1);
    }
}

/// `first_from` is the first index from `i` that satisfies `p`.
pub proof fn lemma_first_from_is(ls: Seq<Seq<char>>, p: spec_fn(Seq<char>) -> bool, i: int, k: int)
    requires
        0 <= i <= k <= ls.len(),
        forall|j: int| i <= j < k ==> !p(#[trigger] ls[j]),
        k == ls.len() || p(ls[k]),
    ensures
        first_from(ls, p, i) == k,
    decreases k - i,
{
    if i < k {
        lemma_first_from_is(ls, p, i + 1, k);
    }
}

/// The pieces of `s[lo..hi]` between occurrences of `c` (as by `split_on`),
/// given by their ranges in `s`.
pub fn split_ranges(s: &Vec<char>, lo: usize, hi: usize, c: char) -> (r: Vec<(usize, usize)>)
    requires
        lo <= hi <= s.len(),
    ensures
        range_texts(s@, r@) == split_on(s@.subrange(lo as int, hi as int), c),
        within(r@, s.len() as int),
{
    let mut r: Vec<(usize, usize)> = Vec::new();
    let mut pos = lo;
    loop
        invariant
            lo <= pos <= hi <= s.len(),
            range_texts(s@, r@) + split_on(s@.subrange(pos as int, hi as int), c) == split_on(
                s@.subrange(lo as int, hi as int),
                c,
            ),
            within(r@, s.len() as int),
        decreases hi - pos,
    {
        let ghost sub = s@.subrange(pos as int, hi as int);
        let mut k = pos;
        while k < hi && s[k] != c
            invariant
                pos <= k <= hi <= s.len(),
                forall|j: int| pos <= j < k ==> s@[j] != c,
            decreases hi - k,
        {
            k = k + 1;
        }
        proof {
            assert forall|j: int| 0 <= j < k - pos implies sub[j] != c by {
                assert(sub[j] == s@[pos + j]);
            }
            if k < hi {
                assert(sub[k - pos] == s@[k as int]);
            }
            lemma_find_char_is(sub, c, k - pos);
        }
        let ghost old_r = r@;
        r.push((pos, k));
        proof {
            assert(range_texts(s@, r@) =~= range_texts(s@, old_r) + seq![
                s@.subrange(pos as int, k as int),
            ]);
        }
        if k < hi {
            proof {
                assert(sub.take(k - pos) =~= s@.subrange(pos as int, k as int));
                assert(sub.skip(k - pos + 1) =~= s@.subrange(k + 1, hi as int));
            }
            pos = k + 1;
        } else {
            proof {
                assert(sub =~= s@.subrange(pos as int, k as int));
            }
            return r;
        }
    }
}

/// Whether `s[lo..hi]` equals `p`.
pub fn eq_range(s: &Vec<char>, lo: usize, hi: usize, p: &Vec<char>) -> (r: bool)
    requires
        lo <= hi <= s.len(),
    ensures
        r == (s@.subrange(lo as int, hi as int) == p@),
{
    if hi - lo != p.len() {
        return false;
    }
    let b = starts_with_at(s, lo, hi, p);
    proof {
        assert(s@.subrange(lo as int, hi as int).take(p.len() as int) =~= s@.subrange(
            lo as int,
            hi as int,
        ));
    }
    b
}


/// `ls` with the pieces `a..b` replaced by `x`, put back together.
pub proof fn lemma_flatten_splice(ls: Seq<Seq<char>>, a: int, b: int, x: Seq<char>)
    requires
        0 <= a <= b <= ls.len(),
    ensures
        (ls.take(a) + seq![x] + ls.skip(b)).flatten() == ls.take(a).flatten() + x + ls.skip(
            b,
        ).flatten(),
{
    vstd::seq_lib::lemma_flatten_concat(ls.take(a) + seq![x], ls.skip(b));
    vstd::seq_lib::lemma_flatten_concat(ls.take(a), seq![x]);
    seq![x].lemma_flatten_singleton();
}

/// Where pieces start grows with their index.
pub proof fn lemma_tiles_mono(r: Seq<(usize, usize)>, lo: int, hi: int, k: int, k2: int)
    requires
        tiles(r, lo, hi),
        0 <= k <= k2 <= r.len(),
    ensures
        piece_start(r, k, hi) <= piece_start(r, k2, hi),
    decreases k2 - k,
{
    if k < k2 {
        lemma_tiles_mono(r, lo, hi, k + 1, k2);
        lemma_tiles_bounds(r, lo, hi, k);
        if k + 1 < r.len() {
            assert(r[k].1 == r[k + 1].0);
        } else {
            assert(r.last() == r[k]);
        }
    }
}

/// The pieces of a tiling before `k` and from `k2`, with `x` between them,
/// put back together.
pub proof fn lemma_tiles_splice(
    s: Seq<char>,
    r: Seq<(usize, usize)>,
    lo: int,
    hi: int,
    k: int,
    k2: int,
    x: Seq<char>,
)
    requires
        tiles(r, lo, hi),
        0 <= lo <= hi <= s.len(),
        0 <= k <= k2 <= r.len(),
    ensures
        lo <= piece_start(r, k, hi) <= piece_start(r, k2, hi) <= hi,
        (range_texts(s, r).take(k) + seq![x] + range_texts(s, r).skip(k2)).flatten() == s.subrange(
            lo,
            piece_start(r, k, hi),
        ) + x + s.subrange(piece_start(r, k2, hi), hi),
{
    let ls = range_texts(s, r);
    let a = piece_start(r, k, hi);
    let b = piece_start(r, k2, hi);
    let pre = ls.take(k).flatten();
    let post = ls.skip(k2).flatten();
    assert(lo <= a <= hi && pre == s.subrange(lo, a)) by {
        lemma_tiles_split(s, r, lo, hi, k);
    }
    assert(lo <= b <= hi && post == s.subrange(b, hi)) by {
        lemma_tiles_split(s, r, lo, hi, k2);
    }
    assert(a <= b) by {
        lemma_tiles_mono(r, lo, hi, k, k2);
    }
    assert((ls.take(k) + seq![x] + ls.skip(k2)).flatten() == pre + x + post) by {
        lemma_flatten_splice(ls, k, k2, x);
    }
}

/// `slice::join`: the texts of `ts` with `sep` between neighbours.
pub open spec fn join(ts: Seq<Seq<char>>, sep: Seq<char>) -> Seq<char>
    decreases ts.len(),
{
    if ts.len() == 0 {
        seq![]
    } else if ts.len() == 1 {
        ts[0]
    } else {
        join(ts.drop_last(), sep) + sep + ts.last()
    }
}

/// Appends `join(ts, sep)` to `out`.
pub fn push_join(out: &mut Vec<char>, ts: &[String], sep: &Vec<char>)
    ensures
        final(out)@ == old(out)@ + join(ts.deep_view(), sep@),
{
    let ghost start = out@;
    let ghost tv = ts.deep_view();
    let mut i: usize = 0;
    while i < ts.len()
        invariant
            i <= ts.len(),
            tv == ts.deep_view(),
            tv.len() == ts.len(),
            out@ == start + join(tv.take(i as int), sep@),
        decreases ts.len() - i,
    {
        let t = chars_of(ts[i].as_str());
        proof {
            assert(tv[i as int] == ts@[i as int]@);
            assert(tv.take(i + 1).drop_last() =~= tv.take(i as int));
            assert(tv.take(i + 1).last() == tv[i as int]);
        }
        if i > 0 {
            push_all(out, sep);
        } else {
            assert(tv.take(1) =~= seq![tv[0]]);
            assert(tv.take(0) =~= Seq::<Seq<char>>::empty());
        }
        push_all(out, &t);
        proof {
            assert(out@ =~= start + join(tv.take(i + 1), sep@));
        }
        i = i + 1;
    }
    proof {
        assert(tv.take(ts.len() as int) =~= tv);
    }
}


/// `l` is one full line: nonempty, ending in its only `'\n'`.
pub open spec fn one_line(l: Seq<char>) -> bool {
    &&& l.len() > 0
    &&& l.last() == '\n'
    &&& forall|j: int| 0 <= j < l.len() - 1 ==> l[j] != '\n'
}

/// A full line followed by more text starts the lines of the whole.
pub proof fn lemma_lines_first(a: Seq<char>, b: Seq<char>)
    requires
        one_line(a),
    ensures
        lines_incl(a + b) == seq![a] + lines_incl(b),
{
    let s = a + b;
    assert forall|j: int| 0 <= j < a.len() - 1 implies s[j] != '\n' by {
        assert(s[j] == a[j]);
    }
    assert(s[a.len() - 1] == a.last());
    lemma_find_char_is(s, '\n', a.len() - 1);
    assert(s.take(a.len() as int) =~= a);
    assert(s.skip(a.len() as int) =~= b);
}

/// Full lines followed by more text start the lines of the whole.
pub proof fn lemma_lines_prefix(p: Seq<Seq<char>>, b: Seq<char>)
    requires
        forall|i: int| 0 <= i < p.len() ==> one_line(#[trigger] p[i]),
    ensures
        lines_incl(p.flatten() + b) == p + lines_incl(b),
    decreases p.len(),
{
    if p.len() == 0 {
        assert(p.flatten() + b =~= b);
        assert(p + lines_incl(b) =~= lines_incl(b));
    } else {
        let t = p.drop_first();
        assert forall|i: int| 0 <= i < t.len() implies one_line(#[trigger] t[i]) by {
            assert(t[i] == p[i + 1]);
        }
        lemma_lines_prefix(t, b);
        assert(one_line(p[0]));
        assert(p.flatten() + b =~= p[0] + (t.flatten() + b));
        lemma_lines_first(p[0], t.flatten() + b);
        assert(p + lines_incl(b) =~= seq![p[0]] + (t + lines_incl(b)));
    }
}

/// The lines of `s`, put back together, give `s`.
pub proof fn lemma_lines_flatten(s: Seq<char>)
    ensures
        lines_incl(s).flatten() == s,
    decreases s.len(),
{
    if s.len() > 0 {
        let f = find_char(s, '\n') as int;
        lemma_find_char(s, '\n');
        let ls = lines_incl(s);
        if f < s.len() {
            let rest = s.skip(f + 1);
            lemma_lines_flatten(rest);
            assert(ls.drop_first() =~= lines_incl(rest));
            assert(ls.first() == s.take(f + 1));
            assert(ls.flatten() == ls.first() + ls.drop_first().flatten());
            assert(s =~= s.take(f + 1) + rest);
        } else {
            assert(ls.drop_first() =~= Seq::<Seq<char>>::empty());
            assert(ls.first() == s);
            assert(ls.flatten() == ls.first() + ls.drop_first().flatten());
            assert(ls.drop_first().flatten() =~= Seq::<char>::empty());
            assert(s + Seq::<char>::empty() =~= s);
        }
    } else {
        assert(lines_incl(s).flatten() =~= Seq::<char>::empty());
        assert(s =~= Seq::<char>::empty());
    }
}

/// The lines of `s` from index `j` on, put back together, split into the
/// same lines.
pub proof fn lemma_lines_of_tail(s: Seq<char>, j: int)
    requires
        0 <= j <= lines_incl(s).len(),
    ensures
        lines_incl(lines_incl(s).skip(j).flatten()) == lines_incl(s).skip(j),
    decreases s.len(),
{
    let ls = lines_incl(s);
    if j == 0 {
        lemma_lines_flatten(s);
        assert(ls.skip(0) =~= ls);
    } else {
        let f = find_char(s, '\n') as int;
        lemma_find_char(s, '\n');
        if f < s.len() {
            let rest = s.skip(f + 1);
            lemma_lines_of_tail(rest, j - 1);
            assert(ls.skip(j) =~= lines_incl(rest).skip(j - 1));
        } else {
            assert(ls.skip(j) =~= Seq::<Seq<char>>::empty());
            assert(ls.skip(j).flatten() =~= Seq::<char>::empty());
        }
    }
}

/// Every line of `lines_incl(s)` but the last is a full line; the last one
/// is nonempty and has no `'\n'` before its end.
pub proof fn lemma_lines_shape(s: Seq<char>)
    ensures
        forall|i: int| 0 <= i < lines_incl(s).len() - 1 ==> one_line(#[trigger] lines_incl(s)[i]),
        forall|i: int| 0 <= i < lines_incl(s).len() ==> (#[trigger] lines_incl(s)[i]).len() > 0,
        forall|i: int| 0 <= i < lines_incl(s).len() ==> piece(#[trigger] lines_incl(s)[i]),
    decreases s.len(),
{
    if s.len() > 0 {
        let f = find_char(s, '\n') as int;
        lemma_find_char(s, '\n');
        if f < s.len() {
            let rest = s.skip(f + 1);
            lemma_lines_shape(rest);
            let ls = lines_incl(s);
            assert(ls == seq![s.take(f + 1)] + lines_incl(rest));
            let l0 = s.take(f + 1);
            assert(one_line(l0)) by {
                assert forall|j: int| 0 <= j < f implies #[trigger] l0[j] != '\n' by {
                    assert(l0[j] == s[j]);
                }
            }
            assert forall|i: int| 0 <= i < ls.len() - 1 implies one_line(#[trigger] ls[i]) by {
                if i > 0 {
                    assert(ls[i] == lines_incl(rest)[i - 1]);
                }
            }
            assert forall|i: int| 0 <= i < ls.len() implies (#[trigger] ls[i]).len() > 0 by {
                if i > 0 {
                    assert(ls[i] == lines_incl(rest)[i - 1]);
                }
            }
            assert forall|i: int| 0 <= i < ls.len() implies piece(#[trigger] ls[i]) by {
                if i > 0 {
                    assert(ls[i] == lines_incl(rest)[i - 1]);
                }
            }
        } else {
            let ls = lines_incl(s);
            assert(ls == seq![s]);
            assert(piece(ls[0]));
        }
    }
}

/// A nonempty text with no `'\n'` before its last character: what a line
/// of `lines_incl` is.
pub open spec fn piece(l: Seq<char>) -> bool {
    &&& l.len() > 0
    &&& forall|j: int| 0 <= j < l.len() - 1 ==> l[j] != '\n'
}

/// A piece is its own only line.
pub proof fn lemma_lines_single(l: Seq<char>)
    requires
        piece(l),
    ensures
        lines_incl(l) == seq![l],
{
    let f = find_char(l, '\n') as int;
    lemma_find_char(l, '\n');
    if f < l.len() {
        assert(f == l.len() - 1);
        assert(l.take(f + 1) =~= l);
        assert(l.skip(f + 1) =~= Seq::<char>::empty());
        assert(lines_incl(Seq::<char>::empty()) =~= Seq::<Seq<char>>::empty());
    }
}

/// Pieces that are full lines but for the last, put together, split back
/// into the same lines.
pub proof fn lemma_lines_of_lines(ls: Seq<Seq<char>>)
    requires
        forall|i: int| 0 <= i < ls.len() - 1 ==> one_line(#[trigger] ls[i]),
        forall|i: int| 0 <= i < ls.len() ==> piece(#[trigger] ls[i]),
    ensures
        lines_incl(ls.flatten()) == ls,
{
    if ls.len() == 0 {
        assert(ls.flatten() =~= Seq::<char>::empty());
        assert(lines_incl(Seq::<char>::empty()) =~= ls);
    } else {
        let p = ls.drop_last();
        let l = ls.last();
        assert forall|i: int| 0 <= i < p.len() implies one_line(#[trigger] p[i]) by {
            assert(p[i] == ls[i]);
        }
        lemma_lines_prefix(p, l);
        assert(ls =~= p + seq![l]);
        vstd::seq_lib::lemma_flatten_concat(p, seq![l]);
        seq![l].lemma_flatten_singleton();
        assert(piece(ls[ls.len() - 1]));
        lemma_lines_single(l);
    }
}

/// The first line of a nonempty text starts it.
pub proof fn lemma_first_line(s: Seq<char>)
    requires
        s.len() > 0,
    ensures
        lines_incl(s).len() > 0,
        lines_incl(s)[0].len() <= s.len(),
        s.take(lines_incl(s)[0].len() as int) == lines_incl(s)[0],
{
    let f = find_char(s, '\n') as int;
    lemma_find_char(s, '\n');
    if f >= s.len() {
        assert(s.take(s.len() as int) =~= s);
    }
}

/// Pieces split at `c` around an occurrence of `c`.
pub proof fn lemma_split_concat(a: Seq<char>, b: Seq<char>, c: char)
    ensures
        split_on(a + seq![c] + b, c) == split_on(a, c) + split_on(b, c),
    decreases a.len(),
{
    let s = a + seq![c] + b;
    let f = find_char(a, c) as int;
    lemma_find_char(a, c);
    if f < a.len() {
        assert forall|j: int| 0 <= j < f implies s[j] != c by {
            assert(s[j] == a[j]);
        }
        assert(s[f] == a[f]);
        lemma_find_char_is(s, c, f);
        lemma_split_concat(a.skip(f + 1), b, c);
        assert(s.take(f) =~= a.take(f));
        assert(s.skip(f + 1) =~= a.skip(f + 1) + seq![c] + b);
    } else {
        assert forall|j: int| 0 <= j < a.len() implies s[j] != c by {
            assert(s[j] == a[j]);
        }
        assert(s[a.len() as int] == c);
        lemma_find_char_is(s, c, a.len() as int);
        assert(s.take(a.len() as int) =~= a);
        assert(s.skip(a.len() as int + 1) =~= b);
    }
}

/// Text without `c` is a single piece.
pub proof fn lemma_split_none(b: Seq<char>, c: char)
    requires
        !b.contains(c),
    ensures
        split_on(b, c) == seq![b],
{
    assert forall|j: int| 0 <= j < b.len() implies b[j] != c by {
        if b[j] == c {
            assert(b.contains(c));
        }
    }
    lemma_find_char_is(b, c, b.len() as int);
}

/// Trimming ignores a leading space.
pub proof fn lemma_trim_space_prefix(t: Seq<char>)
    ensures
        trim(seq![' '] + t) == trim(t),
{
    let u = seq![' '] + t;
    let k = CharClass::White;
    let n = trail_run(t, k) as int;
    lemma_trail_run_bound(t, k);
    assert(is_white(' '));
    if n < t.len() {
        assert forall|j: int| u.len() - n <= j < u.len() implies in_class(k, #[trigger] u[j]) by {
            assert(u[j] == t[j - 1]);
        }
        assert(u[u.len() - 1 - n] == t[t.len() - 1 - n]);
        lemma_trail_run_is(u, k, n);
        let x = trim_end_by(t, k);
        assert(trim_end_by(u, k) =~= seq![' '] + x);
        let m = lead_run(x, k) as int;
        lemma_lead_run_bound(x, k);
        if m == x.len() {
            assert(x[x.len() - 1] == t[t.len() - 1 - n]);
        }
        let y = seq![' '] + x;
        assert forall|j: int| 0 <= j < m + 1 implies in_class(k, #[trigger] y[j]) by {
            if j > 0 {
                assert(y[j] == x[j - 1]);
            }
        }
        assert(y[m + 1] == x[m]);
        lemma_lead_run_is(y, k, m + 1);
        assert(y.skip(m + 1) =~= x.skip(m));
    } else {
        assert forall|j: int| u.len() - u.len() <= j < u.len() implies in_class(
            k,
            #[trigger] u[j],
        ) by {
            if j > 0 {
                assert(u[j] == t[j - 1]);
            }
        }
        lemma_trail_run_is(u, k, u.len() as int);
        assert(trim_end_by(u, k) =~= Seq::<char>::empty());
        assert(trim_end_by(t, k) =~= Seq::<char>::empty());
    }
}


/// Appends the characters of `s`.
pub fn push_str(out: &mut Vec<char>, s: &str)
    ensures
        final(out)@ == old(out)@ + s@,
{
    let v = chars_of(s);
    push_all(out, &v);
}

/// Appends `sep` and then `t` when `out` already holds something, else `t`.
pub proof fn lemma_join_push(ts: Seq<Seq<char>>, t: Seq<char>, sep: Seq<char>)
    ensures
        join(ts.push(t), sep) == if ts.len() == 0 {
            t
        } else {
            join(ts, sep) + sep + t
        },
{
    assert(ts.push(t).drop_last() =~= ts);
    assert(ts.push(t).last() == t);
    if ts.len() == 0 {
        assert(ts.push(t)[0] == t);
    }
}

} // verus!
