//! Resolution of a free-form title query to a single memo: an exact
//! (case-insensitive) title or slug wins; otherwise the memos are ranked by
//! the skim fuzzy matcher and the best one is taken when it is clearly ahead.
use vstd::prelude::*;
use crate::error::StplError;
use crate::memo::Memo;
use crate::order;
use crate::text;
use crate::unicode;

verus! {

/// The score that `SkimMatcherV2::default().fuzzy_match(choice, pattern)`
/// gives.
pub uninterp spec fn skim_score(choice: Seq<char>, pattern: Seq<char>) -> Option<i64>;

/// `SkimMatcherV2::default().fuzzy_match(choice, pattern)`.
///
/// Trusted: the default matcher's score depends on the two texts alone
/// (named `skim_score`); its caches only hold scratch space.
#[verifier::external_body]
fn fuzzy_score(choice: &str, pattern: &str) -> (r: Option<i64>)
    ensures
        r == skim_score(choice@, pattern@),
{
    fuzzy_matcher::FuzzyMatcher::fuzzy_match(
        &fuzzy_matcher::skim::SkimMatcherV2::default(),
        choice,
        pattern,
    )
}

/// `b` is a copy of `a`.
pub open spec fn same_memo(a: Memo, b: Memo) -> bool {
    &&& a.title@ == b.title@
    &&& a.slug@ == b.slug@
    &&& a.date == b.date
    &&& a.year == b.year
    &&& a.week == b.week
    &&& a.path@ == b.path@
    &&& a.kind == b.kind
    &&& a.tags.deep_view() == b.tags.deep_view()
}

/// The fuzzy score at position `j`, 0 when there is none.
pub open spec fn score_at(scores: Seq<Option<i64>>, j: int) -> int {
    match scores[j] {
        Some(s) => s as int,
        None => 0,
    }
}

/// Position `j` has a positive score.
pub open spec fn positive(scores: Seq<Option<i64>>, j: int) -> bool {
    scores[j] matches Some(s) && s > 0
}

/// Position `a` ranks before `b`: a higher score, or the same score and an
/// earlier position (a stable sort by descending score).
pub open spec fn rank_before(scores: Seq<Option<i64>>, a: int, b: int) -> bool {
    score_at(scores, a) > score_at(scores, b) || (score_at(scores, a) == score_at(scores, b)
        && a < b)
}

/// `ps` lists, in rank order, exactly the positions with a positive score.
pub open spec fn is_ranking(ps: Seq<usize>, scores: Seq<Option<i64>>) -> bool {
    &&& forall|k: int| 0 <= k < ps.len() ==> (#[trigger] ps[k]) < scores.len() && positive(scores, ps[k] as int)
    &&& forall|j: usize| j < scores.len() && positive(scores, j as int) ==> #[trigger] ps.contains(j)
    &&& forall|a: int, b: int| 0 <= a < b < ps.len() ==> rank_before(scores, #[trigger] ps[a] as int, #[trigger] ps[b] as int)
}

/// `top` is clearly ahead of `second`: at least 1.5 times its score.
pub open spec fn clear_lead(top: int, second: int) -> bool {
    2 * top >= 3 * second
}

/// `s` is close to `top`: within the 1.5 margin.
pub open spec fn close_to(s: int, top: int) -> bool {
    3 * s >= 2 * top
}

/// The outcome of matching given the ranking `ps`: no match is `NotFound`;
/// a single match, or a top match clearly ahead of the second, is that memo;
/// otherwise `Ambiguous`, listing (in rank order) the matches close to the top.
pub open spec fn ranked_outcome(
    r: Result<Memo, StplError>,
    memos: Seq<Memo>,
    scores: Seq<Option<i64>>,
    ps: Seq<usize>,
    query: Seq<char>,
) -> bool {
    if ps.len() == 0 {
        r matches Err(e) && (e matches StplError::NotFound(q) && q@ == query)
    } else if ps.len() == 1 || clear_lead(score_at(scores, ps[0] as int), score_at(scores, ps[1] as int)) {
        r matches Ok(m) && same_memo(m, memos[ps[0] as int])
    } else {
        r matches Err(e) && (e matches StplError::Ambiguous { query: q, matches } && {
            &&& q@ == query
            &&& exists|cs: Seq<usize>| {
                &&& cs.len() == matches.len()
                &&& forall|k: int| 0 <= k < cs.len() ==> same_memo(#[trigger] matches@[k], memos[cs[k] as int])
                &&& is_close_listing(cs, ps, scores)
            }
        })
    }
}

/// `cs` is the subsequence of `ps` of the positions whose score is close to
/// that of `ps[0]`.
pub open spec fn is_close_listing(cs: Seq<usize>, ps: Seq<usize>, scores: Seq<Option<i64>>) -> bool {
    let top = score_at(scores, ps[0] as int);
    &&& forall|k: int| 0 <= k < cs.len() ==> ps.contains(#[trigger] cs[k]) && close_to(score_at(scores, cs[k] as int), top)
    &&& forall|k: int| 0 <= k < ps.len() && close_to(score_at(scores, ps[k] as int), top) ==> cs.contains(#[trigger] ps[k])
    &&& forall|a: int, b: int| 0 <= a < b < cs.len() ==> rank_before(scores, #[trigger] cs[a] as int, #[trigger] cs[b] as int)
}

/// Decide among fuzzy matches, given the fuzzy score of each memo's title
/// (`scores[i]` for `memos[i]`): rank the positive scores (descending, stable),
/// then 0 matches is `NotFound`; 1 match, or a top score at least 1.5 times
/// the runner-up, is that memo; several close matches are `Ambiguous`, with
/// every match within the 1.5 margin of the top.
pub fn pick_match(memos: &[Memo], scores: &[Option<i64>], query: &str) -> (r: Result<Memo, StplError>)
    requires
        scores.len() == memos.len(),
    ensures
        exists|ps: Seq<usize>| is_ranking(ps, scores@) && ranked_outcome(r, memos@, scores@, ps, query@),
{
    let n = scores.len();
    let mut pos: Vec<usize> = Vec::new();
    let mut i: usize = 0;
    while i < n
        invariant
            i <= n == scores.len(),
            forall|k: int| 0 <= k < pos.len() ==> (#[trigger] pos@[k]) < i && positive(scores@, pos@[k] as int),
            forall|j: usize| j < i && positive(scores@, j as int) ==> #[trigger] pos@.contains(j),
            forall|a: int, b: int| 0 <= a < b < pos.len() ==> #[trigger] pos@[a] < #[trigger] pos@[b],
        decreases n - i,
    {
        match scores[i] {
            Some(s) => {
                if s > 0 {
                    let ghost old_pos = pos@;
                    pos.push(i);
                    proof {
                        assert forall|j: usize| j < i + 1 && positive(scores@, j as int) implies #[trigger] pos@.contains(j) by {
                            if j == i {
                                assert(pos@[old_pos.len() as int] == i);
                            } else {
                                assert(old_pos.contains(j));
                                let k = choose|k: int| 0 <= k < old_pos.len() && old_pos[k] == j;
                                assert(pos@[k] == j);
                            }
                        }
                    }
                } else {
                    proof {
                        assert forall|j: usize| j < i + 1 && positive(scores@, j as int) implies #[trigger] pos@.contains(j) by {
                            if j == i {
                            }
                        }
                    }
                }
            },
            None => {
                proof {
                    assert forall|j: usize| j < i + 1 && positive(scores@, j as int) implies #[trigger] pos@.contains(j) by {
                        if j == i {
                        }
                    }
                }
            },
        }
        i = i + 1;
    }
    let m = pos.len();
    let ghost sv = scores@;
    let ghost pv = pos@;
    let ghost before = |a: int, b: int| rank_before(sv, pv[a] as int, pv[b] as int);
    proof {
        assert forall|a: int, b: int| 0 <= a < m && 0 <= b < m && a != b implies #[trigger] before(a, b) || before(b, a) by {
            if a < b {
                assert(pv[a] < pv[b]);
            } else {
                assert(pv[b] < pv[a]);
            }
        }
    }
    let decide = |a: usize, b: usize| -> (res: bool)
        requires
            a < m,
            b < m,
        ensures
            res == before(a as int, b as int),
        {
            let sa = match scores[pos[a]] {
                Some(s) => s,
                None => 0,
            };
            let sb = match scores[pos[b]] {
                Some(s) => s,
                None => 0,
            };
            sa > sb || (sa == sb && pos[a] < pos[b])
        };
    let ord = order::sort_positions(m, &decide, Ghost(before));
    let mut ranked: Vec<usize> = Vec::new();
    let mut k: usize = 0;
    while k < m
        invariant
            k <= m == pos.len() == pv.len(),
            pv == pos@,
            order::covers(ord@, m as int),
            ranked.len() == k,
            forall|q: int| 0 <= q < k ==> #[trigger] ranked@[q] == pv[ord@[q] as int],
        decreases m - k,
    {
        ranked.push(pos[ord[k]]);
        k = k + 1;
    }
    proof {
        let ps = ranked@;
        assert forall|q: int| 0 <= q < ps.len() implies (#[trigger] ps[q]) < sv.len() && positive(sv, ps[q] as int) by {
            assert(ps[q] == pv[ord@[q] as int]);
        }
        assert forall|j: usize| j < sv.len() && positive(sv, j as int) implies #[trigger] ps.contains(j) by {
            assert(pv.contains(j));
            let a = choose|a: int| 0 <= a < pv.len() && pv[a] == j;
            assert(ord@.contains(a as usize));
            let q = choose|q: int| 0 <= q < ord@.len() && ord@[q] == a as usize;
            assert(ps[q] == j);
        }
        assert forall|a: int, b: int| 0 <= a < b < ps.len() implies rank_before(sv, #[trigger] ps[a] as int, #[trigger] ps[b] as int) by {
            assert(before(ord@[a] as int, ord@[b] as int));
        }
        assert(is_ranking(ps, sv));
    }
    decide_ranked(memos, scores, &ranked, query)
}

/// The outcome of matching, given the ranking.
fn decide_ranked(memos: &[Memo], scores: &[Option<i64>], ranked: &Vec<usize>, query: &str) -> (r: Result<Memo, StplError>)
    requires
        scores.len() == memos.len(),
        is_ranking(ranked@, scores@),
    ensures
        ranked_outcome(r, memos@, scores@, ranked@, query@),
{
    let m = ranked.len();
    if m == 0 {
        return Err(StplError::NotFound(query.to_string()));
    }
    let top = score_of(scores, ranked[0]);
    if m == 1 {
        return Ok(memos[ranked[0]].clone());
    }
    let second = score_of(scores, ranked[1]);
    if 2 * (top as i128) >= 3 * (second as i128) {
        return Ok(memos[ranked[0]].clone());
    }
    let mut matches: Vec<Memo> = Vec::new();
    let ghost mut cs: Seq<usize> = seq![];
    let ghost mut ai: Seq<int> = seq![];
    let mut k: usize = 0;
    while k < m
        invariant
            k <= m == ranked.len(),
            m >= 2,
            scores.len() == memos.len(),
            is_ranking(ranked@, scores@),
            top == score_at(scores@, ranked@[0] as int),
            cs.len() == matches.len(),
            ai.len() == cs.len(),
            forall|q: int| 0 <= q < cs.len() ==> same_memo(#[trigger] matches@[q], memos@[cs[q] as int]),
            forall|q: int|
                0 <= q < cs.len() ==> 0 <= #[trigger] ai[q] < k && cs[q] == ranked@[ai[q]] && close_to(
                    score_at(scores@, cs[q] as int),
                    top as int,
                ),
            forall|q1: int, q2: int| 0 <= q1 < q2 < ai.len() ==> #[trigger] ai[q1] < #[trigger] ai[q2],
            forall|a: int|
                0 <= a < k && close_to(score_at(scores@, #[trigger] ranked@[a] as int), top as int) ==> ai.contains(a),
        decreases m - k,
    {
        let p = ranked[k];
        let s = score_of(scores, p);
        if 3 * (s as i128) >= 2 * (top as i128) {
            matches.push(memos[p].clone());
            proof {
                let old_ai = ai;
                cs = cs.push(p);
                ai = ai.push(k as int);
                assert forall|a: int|
                    0 <= a < k + 1 && close_to(score_at(scores@, #[trigger] ranked@[a] as int), top as int) implies ai.contains(a) by {
                    if a == k {
                        assert(ai[old_ai.len() as int] == a);
                    } else {
                        assert(old_ai.contains(a));
                        let q = choose|q: int| 0 <= q < old_ai.len() && old_ai[q] == a;
                        assert(ai[q] == a);
                    }
                }
            }
        }
        k = k + 1;
    }
    let ghost ps = ranked@;
    proof {
        assert forall|q: int| 0 <= q < cs.len() implies ps.contains(#[trigger] cs[q]) && close_to(score_at(scores@, cs[q] as int), top as int) by {
            assert(ps[ai[q]] == cs[q]);
        }
        assert forall|q: int| 0 <= q < ps.len() && close_to(score_at(scores@, ps[q] as int), top as int) implies cs.contains(#[trigger] ps[q]) by {
            assert(ai.contains(q));
            let j = choose|j: int| 0 <= j < ai.len() && ai[j] == q;
            assert(cs[j] == ps[q]);
        }
        assert forall|a: int, b: int| 0 <= a < b < cs.len() implies rank_before(scores@, #[trigger] cs[a] as int, #[trigger] cs[b] as int) by {
            assert(ai[a] < ai[b]);
        }
        assert(is_close_listing(cs, ps, scores@));
    }
    let e = StplError::Ambiguous { query: query.to_string(), matches };
    proof {
        assert(e matches StplError::Ambiguous { query: q, matches: ms } && q@ == query@ && cs.len() == ms.len() && (forall|k: int| 0 <= k < cs.len() ==> same_memo(#[trigger] ms@[k], memos@[cs[k] as int])));
    }
    Err(e)
}

/// Memo `i`'s title or slug equals `needle` once lowercased.
pub open spec fn exact_at(memos: Seq<Memo>, i: int, needle: Seq<char>) -> bool {
    unicode::lowercase_text(memos[i].title@) == needle || unicode::lowercase_text(memos[i].slug@)
        == needle
}

/// `i` is the first memo whose title or slug matches `query`, case aside.
pub open spec fn first_exact(memos: Seq<Memo>, query: Seq<char>, i: int) -> bool {
    let needle = unicode::lowercase_text(query);
    &&& 0 <= i < memos.len()
    &&& exact_at(memos, i, needle)
    &&& forall|j: int| 0 <= j < i ==> !exact_at(memos, j, needle)
}

/// The fuzzy score of each memo's title against `query`.
pub open spec fn title_scores(memos: Seq<Memo>, query: Seq<char>) -> Seq<Option<i64>> {
    Seq::new(memos.len(), |i: int| skim_score(memos[i].title@, query))
}

/// Resolve a free-form `query` to exactly one of `memos`: the first memo
/// whose title or slug equals the query, case aside, wins; otherwise the
/// titles are fuzzy-scored and `pick_match` decides.
pub fn resolve_one(memos: &[Memo], query: &str) -> (r: Result<Memo, StplError>)
    ensures
        forall|i: int| first_exact(memos@, query@, i) ==> (r matches Ok(m) && same_memo(m, memos@[i])),
        (forall|i: int| 0 <= i < memos@.len() ==> !exact_at(memos@, i, unicode::lowercase_text(query@)))
            ==> exists|ps: Seq<usize>|
            is_ranking(ps, title_scores(memos@, query@)) && ranked_outcome(
                r,
                memos@,
                title_scores(memos@, query@),
                ps,
                query@,
            ),
{
    let needle = unicode::str_to_lowercase(query);
    let n = memos.len();
    let mut i: usize = 0;
    while i < n
        invariant
            i <= n == memos.len(),
            needle@ == unicode::lowercase_text(query@),
            forall|j: int| 0 <= j < i ==> !exact_at(memos@, j, needle@),
        decreases n - i,
    {
        let t = unicode::str_to_lowercase(memos[i].title.as_str());
        let s = unicode::str_to_lowercase(memos[i].slug.as_str());
        if t == needle || s == needle {
            proof {
                assert(exact_at(memos@, i as int, needle@));
                assert forall|k: int| first_exact(memos@, query@, k) implies k == i by {
                    if k < i {
                    } else if k > i {
                        assert(!exact_at(memos@, i as int, needle@));
                    }
                }
            }
            return Ok(memos[i].clone());
        }
        i = i + 1;
    }
    let mut scores: Vec<Option<i64>> = Vec::new();
    let mut k: usize = 0;
    while k < n
        invariant
            k <= n == memos.len(),
            scores.len() == k,
            forall|j: int| 0 <= j < k ==> #[trigger] scores@[j] == skim_score(memos@[j].title@, query@),
        decreases n - k,
    {
        scores.push(fuzzy_score(memos[k].title.as_str(), query));
        k = k + 1;
    }
    proof {
        assert(scores@ =~= title_scores(memos@, query@));
        assert forall|j: int| first_exact(memos@, query@, j) implies false by {
            assert(!exact_at(memos@, j, needle@));
        }
    }
    pick_match(memos, scores.as_slice(), query)
}

/// The fuzzy score at position `p`, 0 when there is none.
fn score_of(scores: &[Option<i64>], p: usize) -> (s: i64)
    requires
        p < scores.len(),
    ensures
        s == score_at(scores@, p as int),
{
    match scores[p] {
        Some(s) => s,
        None => 0,
    }
}

} // verus!
