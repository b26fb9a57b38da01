//! Orders: the order of texts (that of `str`, character by character), and
//! sorting positions by a strict total order.
use vstd::prelude::*;

verus! {

/// `a < b` for `str`: lexicographic by characters (UTF-8 byte order, which
/// is the same as the order of code points).
pub open spec fn text_lt(a: Seq<char>, b: Seq<char>) -> bool
    decreases a.len(),
{
    if a.len() == 0 {
        b.len() > 0
    } else if b.len() == 0 {
        false
    } else if a[0] != b[0] {
        a[0] < b[0]
    } else {
        text_lt(a.drop_first(), b.drop_first())
    }
}

pub proof fn lemma_text_lt_irreflexive(a: Seq<char>)
    ensures
        !text_lt(a, a),
    decreases a.len(),
{
    if a.len() > 0 {
        lemma_text_lt_irreflexive(a.drop_first());
    }
}

pub proof fn lemma_text_lt_transitive(a: Seq<char>, b: Seq<char>, c: Seq<char>)
    requires
        text_lt(a, b),
        text_lt(b, c),
    ensures
        text_lt(a, c),
    decreases a.len(),
{
    if a.len() > 0 && b.len() > 0 && c.len() > 0 {
        if a[0] == b[0] && b[0] == c[0] {
            lemma_text_lt_transitive(a.drop_first(), b.drop_first(), c.drop_first());
        }
    }
}

pub proof fn lemma_text_lt_total(a: Seq<char>, b: Seq<char>)
    ensures
        a == b || text_lt(a, b) || text_lt(b, a),
    decreases a.len(),
{
    if a.len() > 0 && b.len() > 0 {
        if a[0] == b[0] {
            lemma_text_lt_total(a.drop_first(), b.drop_first());
            if a.drop_first() == b.drop_first() {
                assert(a =~= seq![a[0]] + a.drop_first());
                assert(b =~= seq![b[0]] + b.drop_first());
            }
        } else {
        }
    } else if a.len() == 0 && b.len() == 0 {
        assert(a =~= b);
    }
}

/// Whether `a < b` as texts.
pub fn text_less(a: &Vec<char>, b: &Vec<char>) -> (r: bool)
    ensures
        r == text_lt(a@, b@),
{
    let mut i: usize = 0;
    proof {
        assert(a@.skip(0) =~= a@);
        assert(b@.skip(0) =~= b@);
    }
    while i < a.len() && i < b.len() && a[i] == b[i]
        invariant
            i <= a.len(),
            i <= b.len(),
            text_lt(a@, b@) == text_lt(a@.skip(i as int), b@.skip(i as int)),
        decreases a.len() - i,
    {
        proof {
            assert(a@.skip(i as int).drop_first() =~= a@.skip(i + 1));
            assert(b@.skip(i as int).drop_first() =~= b@.skip(i + 1));
            assert(a@.skip(i as int)[0] == a@[i as int]);
            assert(b@.skip(i as int)[0] == b@[i as int]);
        }
        i = i + 1;
    }
    if i == a.len() {
        i < b.len()
    } else if i == b.len() {
        false
    } else {
        proof {
            assert(a@.skip(i as int)[0] == a@[i as int]);
            assert(b@.skip(i as int)[0] == b@[i as int]);
        }
        a[i] < b[i]
    }
}

/// `before` is a strict total order on the positions `0..n`.
pub open spec fn strict_total(before: spec_fn(int, int) -> bool, n: int) -> bool {
    &&& forall|i: int| 0 <= i < n ==> !#[trigger] before(i, i)
    &&& forall|i: int, j: int, k: int|
        0 <= i < n && 0 <= j < n && 0 <= k < n && #[trigger] before(i, j) && #[trigger] before(
            j,
            k,
        ) ==> before(i, k)
    &&& forall|i: int, j: int| 0 <= i < n && 0 <= j < n && i != j ==> #[trigger] before(i, j) || before(j, i)
}

/// The positions `s` are in the order `before`.
pub open spec fn ordered(s: Seq<usize>, before: spec_fn(int, int) -> bool) -> bool {
    forall|a: int, b: int| 0 <= a < b < s.len() ==> before(s[a] as int, s[b] as int)
}

/// `s` holds every position of `0..n` and nothing else.
pub open spec fn covers(s: Seq<usize>, n: int) -> bool {
    &&& s.len() == n
    &&& forall|a: int| 0 <= a < s.len() ==> s[a] < n
    &&& forall|k: usize| k < n ==> #[trigger] s.contains(k)
}

/// The positions `0..n` sorted by the strict total order `before`, which
/// `decide` decides.
pub fn sort_positions<F: Fn(usize, usize) -> bool>(
    n: usize,
    decide: &F,
    Ghost(before): Ghost<spec_fn(int, int) -> bool>,
) -> (r: Vec<usize>)
    requires
        strict_total(before, n as int),
        forall|i: usize, j: usize| i < n && j < n ==> decide.requires((i, j)),
        forall|i: usize, j: usize, b: bool| i < n && j < n && decide.ensures((i, j), b) ==> b == before(
            i as int,
            j as int,
        ),
    ensures
        covers(r@, n as int),
        ordered(r@, before),
{
    let mut r: Vec<usize> = Vec::new();
    let mut i: usize = 0;
    while i < n
        invariant
            i <= n,
            strict_total(before, n as int),
            forall|x: usize, y: usize| x < n && y < n ==> decide.requires((x, y)),
            forall|x: usize, y: usize, b: bool|
                x < n && y < n && decide.ensures((x, y), b) ==> b == before(x as int, y as int),
            covers(r@, i as int),
            ordered(r@, before),
        decreases n - i,
    {
        let mut p: usize = 0;
        while p < r.len() && !decide(i, r[p])
            invariant
                p <= r.len(),
                i < n,
                covers(r@, i as int),
                forall|x: usize, y: usize| x < n && y < n ==> decide.requires((x, y)),
                forall|x: usize, y: usize, b: bool|
                    x < n && y < n && decide.ensures((x, y), b) ==> b == before(x as int, y as int),
                forall|a: int| 0 <= a < p ==> !before(i as int, #[trigger] r@[a] as int),
            decreases r.len() - p,
        {
            p = p + 1;
        }
        let ghost old_r = r@;
        r.insert(p, i);
        proof {
            assert forall|a: int, b: int| 0 <= a < b < r@.len() implies before(
                r@[a] as int,
                r@[b] as int,
            ) by {
                if a < p && b < p {
                    assert(r@[a] == old_r[a] && r@[b] == old_r[b]);
                } else if a < p && b == p {
                    assert(r@[a] == old_r[a]);
                    assert(old_r[a] < i);
                    assert(!before(i as int, old_r[a] as int));
                    assert(before(i as int, old_r[a] as int) || before(old_r[a] as int, i as int));
                } else if a < p {
                    assert(r@[a] == old_r[a] && r@[b] == old_r[b - 1]);
                } else if a == p {
                    assert(r@[b] == old_r[b - 1]);
                    assert(before(i as int, old_r[p as int] as int));
                    if b - 1 > p {
                        assert(before(old_r[p as int] as int, old_r[b - 1] as int));
                    }
                } else {
                    assert(r@[a] == old_r[a - 1] && r@[b] == old_r[b - 1]);
                }
            }
            assert forall|k: usize| k < i + 1 implies #[trigger] r@.contains(k) by {
                if k == i {
                    assert(r@[p as int] == i);
                } else {
                    assert(old_r.contains(k));
                    let a0 = choose|a: int| 0 <= a < old_r.len() && old_r[a] == k;
                    if a0 < p {
                        assert(r@[a0] == k);
                    } else {
                        assert(r@[a0 + 1] == k);
                    }
                }
            }
            assert forall|a: int| 0 <= a < r@.len() implies r@[a] < i + 1 by {
                if a < p {
                    assert(r@[a] == old_r[a]);
                } else if a > p {
                    assert(r@[a] == old_r[a - 1]);
                }
            }
        }
        i = i + 1;
    }
    r
}

} // verus!
