//! Matching a parsed expression against an input, by sets of positions:
//! from a set of start positions, the set of positions where a match of
//! the expression can end.
use vstd::prelude::*;
use super::parser::{represents, Pattern, AST};

verus! {

/// A split point of the input; it marks where quantifiers over split
/// points are instantiated.
pub open spec fn cut(k: int) -> int {
    k
}

/// `t` matches `s[i..j]`.
pub open spec fn matches_at(t: Pattern, s: Seq<char>, i: int, j: int) -> bool
    decreases t, 0nat,
{
    &&& 0 <= i <= j <= s.len()
    &&& match t {
        Pattern::Char(c) => j == i + 1 && s[i] == c,
        Pattern::Plus(u) => exists|k: int|
            #[trigger] cut(k) == k && i <= k <= j && matches_at(*u, s, i, k) && star_at(*u, s, k, j),
        Pattern::Star(u) => star_at(*u, s, i, j),
        Pattern::Question(u) => j == i || matches_at(*u, s, i, j),
        Pattern::Or(u, w) => matches_at(*u, s, i, j) || matches_at(*w, s, i, j),
        Pattern::Concat(ts) => concat_at(ts, ts.len(), s, i, j),
    }
}

/// The first `k` patterns of `ts`, one after the other, match `s[i..j]`.
pub open spec fn concat_at(ts: Seq<Pattern>, k: nat, s: Seq<char>, i: int, j: int) -> bool
    decreases ts, k,
{
    &&& 0 <= i <= j <= s.len()
    &&& k <= ts.len()
    &&& if k == 0 {
        i == j
    } else {
        exists|m: int|
            #[trigger] cut(m) == m && i <= m <= j && concat_at(ts, (k - 1) as nat, s, i, m) && matches_at(ts[k - 1], s, m, j)
    }
}

/// Zero or more matches of `u`, one after the other, match `s[i..j]`.
pub open spec fn star_at(u: Pattern, s: Seq<char>, i: int, j: int) -> bool
    decreases u, (j - i + 1) as nat,
{
    &&& 0 <= i <= j <= s.len()
    &&& (i == j || exists|k: int| #[trigger] cut(k) == k && i < k <= j && matches_at(u, s, i, k) && star_at(u, s, k, j))
}

/// The positions where a match of `t` in `s` can end, when it starts at a
/// position of `p`.
pub open spec fn image(t: Pattern, s: Seq<char>, p: Seq<bool>) -> Seq<bool> {
    Seq::new(
        (s.len() + 1) as nat,
        |j: int| exists|i: int| 0 <= i < p.len() && #[trigger] p[i] && matches_at(t, s, i, j),
    )
}

/// The positions where zero or more matches of `u` can end, when they
/// start at a position of `p`.
pub open spec fn star_image(u: Pattern, s: Seq<char>, p: Seq<bool>) -> Seq<bool> {
    Seq::new(
        (s.len() + 1) as nat,
        |j: int| exists|i: int| 0 <= i < p.len() && #[trigger] p[i] && star_at(u, s, i, j),
    )
}

/// The positions where a match of the first `k` patterns of `ts` can end,
/// when it starts at a position of `p`.
pub open spec fn concat_image(ts: Seq<Pattern>, k: nat, s: Seq<char>, p: Seq<bool>) -> Seq<bool> {
    Seq::new(
        (s.len() + 1) as nat,
        |j: int| exists|i: int| 0 <= i < p.len() && #[trigger] p[i] && concat_at(ts, k, s, i, j),
    )
}

/// The number of positions not in `p`.
pub open spec fn count_false(p: Seq<bool>) -> nat
    decreases p.len(),
{
    if p.len() == 0 {
        0
    } else {
        count_false(p.drop_last()) + if p.last() {
            0nat
        } else {
            1nat
        }
    }
}

proof fn lemma_count_false_grows(a: Seq<bool>, b: Seq<bool>)
    requires
        a.len() == b.len(),
        forall|i: int| 0 <= i < a.len() && #[trigger] a[i] ==> b[i],
    ensures
        count_false(b) <= count_false(a),
        (exists|i: int| 0 <= i < a.len() && !a[i] && #[trigger] b[i]) ==> count_false(b) < count_false(a),
    decreases a.len(),
{
    if a.len() > 0 {
        let (a0, b0) = (a.drop_last(), b.drop_last());
        assert forall|i: int| 0 <= i < a0.len() && #[trigger] a0[i] implies b0[i] by {
            assert(a[i] == a0[i] && b[i] == b0[i]);
        }
        lemma_count_false_grows(a0, b0);
        if exists|i: int| 0 <= i < a.len() && !a[i] && #[trigger] b[i] {
            let i = choose|i: int| 0 <= i < a.len() && !a[i] && #[trigger] b[i];
            if i < a.len() - 1 {
                assert(!a0[i] && b0[i]);
            }
        }
    }
}

/// Zero or more matches followed by one more make zero or more matches.
proof fn lemma_star_extend(u: Pattern, s: Seq<char>, i: int, p: int, q: int)
    requires
        star_at(u, s, i, p),
        matches_at(u, s, p, q),
    ensures
        star_at(u, s, i, q),
    decreases p - i,
{
    if p == q {
    } else if i == p {
        assert(star_at(u, s, q, q));
        assert(cut(q) == q);
        assert(star_at(u, s, i, q));
    } else {
        let k = choose|k: int| cut(k) == k && i < k <= p && matches_at(u, s, i, k) && star_at(u, s, k, p);
        lemma_star_extend(u, s, k, p, q);
        assert(cut(k) == k);
        assert(star_at(u, s, i, q));
    }
}

/// A set of positions closed under matches of `u` holds every position
/// that zero or more matches reach from it.
proof fn lemma_star_closed(u: Pattern, s: Seq<char>, r: Seq<bool>, i: int, j: int)
    requires
        r.len() == s.len() + 1,
        forall|k: int| 0 <= k < r.len() && #[trigger] image(u, s, r)[k] ==> r[k],
        0 <= i < r.len(),
        r[i],
        star_at(u, s, i, j),
    ensures
        r[j],
    decreases j - i,
{
    if i != j {
        let k = choose|k: int| cut(k) == k && i < k <= j && matches_at(u, s, i, k) && star_at(u, s, k, j);
        assert(image(u, s, r)[k]);
        lemma_star_closed(u, s, r, k, j);
    }
}

/// A copy of `p`.
fn copy_bits(p: &Vec<bool>) -> (r: Vec<bool>)
    ensures
        r@ == p@,
{
    let mut r: Vec<bool> = Vec::new();
    let mut i: usize = 0;
    while i < p.len()
        invariant
            i <= p@.len(),
            r@ == p@.take(i as int),
        decreases p@.len() - i,
    {
        r.push(p[i]);
        proof {
            assert(p@.take(i + 1) =~= p@.take(i as int).push(p@[i as int]));
        }
        i = i + 1;
    }
    proof {
        assert(p@.take(p@.len() as int) =~= p@);
    }
    r
}

/// The union of `p` and `q`, and whether it holds a position that `p`
/// does not.
fn union_bits(p: &Vec<bool>, q: &Vec<bool>) -> (r: (Vec<bool>, bool))
    requires
        p@.len() == q@.len(),
    ensures
        r.0@.len() == p@.len(),
        forall|i: int| 0 <= i < p@.len() ==> #[trigger] r.0@[i] == (p@[i] || q@[i]),
        r.1 == exists|i: int| 0 <= i < p@.len() && !p@[i] && #[trigger] q@[i],
{
    let mut out: Vec<bool> = Vec::new();
    let mut grew = false;
    let mut i: usize = 0;
    while i < p.len()
        invariant
            p@.len() == q@.len(),
            i <= p@.len(),
            out@.len() == i,
            forall|k: int| 0 <= k < i ==> #[trigger] out@[k] == (p@[k] || q@[k]),
            grew == exists|k: int| 0 <= k < i && !p@[k] && #[trigger] q@[k],
        decreases p@.len() - i,
    {
        if q[i] && !p[i] {
            grew = true;
        }
        out.push(p[i] || q[i]);
        i = i + 1;
    }
    (out, grew)
}

/// The positions that zero or more matches of `u` reach from `p`.
fn star_closure(u: &AST, s: &str, p: &Vec<bool>, Ghost(tu): Ghost<Pattern>) -> (r: Vec<bool>)
    requires
        represents(*u, tu),
        p@.len() == s@.len() + 1,
    ensures
        r@ == star_image(tu, s@, p@),
    decreases *u, 1nat,
{
    let ghost n = s@.len();
    let mut r = copy_bits(p);
    proof {
        assert forall|j: int| 0 <= j < r@.len() && #[trigger] r@[j] implies exists|i: int|
            0 <= i < p@.len() && p@[i] && star_at(tu, s@, i, j) by {
            assert(star_at(tu, s@, j, j));
        }
    }
    loop
        invariant
            represents(*u, tu),
            p@.len() == n + 1,
            n == s@.len(),
            r@.len() == n + 1,
            forall|i: int| 0 <= i < p@.len() && #[trigger] p@[i] ==> r@[i],
            forall|j: int|
                0 <= j < r@.len() && #[trigger] r@[j] ==> exists|i: int|
                    0 <= i < p@.len() && p@[i] && star_at(tu, s@, i, j),
        decreases count_false(r@),
    {
        let q = ends(u, s, &r, Ghost(tu));
        let (next, grew) = union_bits(&r, &q);
        if !grew {
            proof {
                assert forall|k: int| 0 <= k < r@.len() && #[trigger] image(tu, s@, r@)[k] implies r@[k] by {
                    assert(q@[k]);
                }
                assert forall|j: int| 0 <= j < n + 1 implies #[trigger] star_image(tu, s@, p@)[j] == r@[j] by {
                    if star_image(tu, s@, p@)[j] {
                        let i = choose|i: int| 0 <= i < p@.len() && p@[i] && star_at(tu, s@, i, j);
                        lemma_star_closed(tu, s@, r@, i, j);
                    }
                }
                assert(star_image(tu, s@, p@) =~= r@);
            }
            return r;
        }
        proof {
            let g = choose|g: int| 0 <= g < r@.len() && !r@[g] && #[trigger] q@[g];
            assert(next@[g]);
            lemma_count_false_grows(r@, next@);
            assert forall|j: int|
                0 <= j < next@.len() && #[trigger] next@[j] implies exists|i: int|
                    0 <= i < p@.len() && p@[i] && star_at(tu, s@, i, j) by {
                if !r@[j] {
                    assert(q@[j]);
                    let m = choose|m: int| 0 <= m < r@.len() && r@[m] && matches_at(tu, s@, m, j);
                    let i = choose|i: int| 0 <= i < p@.len() && p@[i] && star_at(tu, s@, i, m);
                    lemma_star_extend(tu, s@, i, m, j);
                }
            }
        }
        r = next;
    }
}

/// The positions where a match of `a` can end, when it starts at a
/// position of `p`.
pub(crate) fn ends(a: &AST, s: &str, p: &Vec<bool>, Ghost(t): Ghost<Pattern>) -> (r: Vec<bool>)
    requires
        represents(*a, t),
        p@.len() == s@.len() + 1,
    ensures
        r@ == image(t, s@, p@),
    decreases *a, 0nat,
{
    let ghost n = s@.len();
    let len = p.len();
    match a {
        AST::Char(c) => {
            let mut out: Vec<bool> = Vec::new();
            out.push(false);
            let mut j: usize = 1;
            while j < len
                invariant
                    len == p@.len(),
                    len == n + 1,
                    n == s@.len(),
                    t == Pattern::Char(*c),
                    1 <= j <= len,
                    out@.len() == j,
                    forall|k: int| 0 <= k < j ==> #[trigger] out@[k] == image(t, s@, p@)[k],
                decreases len - j,
            {
                let hit = p[j - 1] && s.get_char(j - 1) == *c;
                proof {
                    if image(t, s@, p@)[j as int] {
                        let i = choose|i: int| 0 <= i < p@.len() && p@[i] && matches_at(t, s@, i, j as int);
                        assert(i == j - 1);
                    }
                    if hit {
                        assert(matches_at(t, s@, j - 1, j as int));
                    }
                }
                out.push(hit);
                j = j + 1;
            }
            proof {
                assert(!image(t, s@, p@)[0]);
                assert(out@ =~= image(t, s@, p@));
            }
            out
        },
        AST::Or(b, d) => {
            let ghost (tb, td) = (*t->Or_0, *t->Or_1);
            let x = ends(&**b, s, p, Ghost(tb));
            let y = ends(&**d, s, p, Ghost(td));
            let (out, _) = union_bits(&x, &y);
            proof {
                assert(out@ =~= image(t, s@, p@));
            }
            out
        },
        AST::Question(b) => {
            let ghost tb = *t->Question_0;
            let x = ends(&**b, s, p, Ghost(tb));
            let (out, _) = union_bits(p, &x);
            proof {
                assert forall|j: int| 0 <= j < n + 1 implies #[trigger] image(t, s@, p@)[j] == out@[j] by {
                    if p@[j] {
                        assert(matches_at(t, s@, j, j));
                    }
                }
                assert(out@ =~= image(t, s@, p@));
            }
            out
        },
        AST::Star(b) => {
            let ghost tb = *t->Star_0;
            let out = star_closure(&**b, s, p, Ghost(tb));
            proof {
                assert(out@ =~= image(t, s@, p@));
            }
            out
        },
        AST::Plus(b) => {
            let ghost tb = *t->Plus_0;
            let x = ends(&**b, s, p, Ghost(tb));
            let out = star_closure(&**b, s, &x, Ghost(tb));
            proof {
                assert forall|j: int| 0 <= j < n + 1 implies #[trigger] image(t, s@, p@)[j] == out@[j] by {
                    if image(t, s@, p@)[j] {
                        let i = choose|i: int| 0 <= i < p@.len() && p@[i] && matches_at(t, s@, i, j);
                        let k = choose|k: int| cut(k) == k && i <= k <= j && matches_at(tb, s@, i, k) && star_at(tb, s@, k, j);
                        assert(x@[k]);
                    }
                    if out@[j] {
                        let k = choose|k: int| 0 <= k < x@.len() && x@[k] && star_at(tb, s@, k, j);
                        let i = choose|i: int| 0 <= i < p@.len() && p@[i] && matches_at(tb, s@, i, k);
                        assert(cut(k) == k);
                        assert(matches_at(t, s@, i, j));
                    }
                }
                assert(out@ =~= image(t, s@, p@));
            }
            out
        },
        AST::Concat(v) => {
            let ghost ts = t->Concat_0;
            let mut cur = copy_bits(p);
            proof {
                assert forall|j: int| 0 <= j < n + 1 implies #[trigger] concat_image(ts, 0, s@, p@)[j] == cur@[j] by {
                    if p@[j] {
                        assert(concat_at(ts, 0, s@, j, j));
                    }
                }
                assert(cur@ =~= concat_image(ts, 0, s@, p@));
            }
            let mut k: usize = 0;
            while k < v.len()
                invariant
                    represents(*a, t),
                    *a == AST::Concat(*v),
                    t == Pattern::Concat(ts),
                    v@.len() == ts.len(),
                    n == s@.len(),
                    p@.len() == n + 1,
                    k <= v@.len(),
                    cur@ == concat_image(ts, k as nat, s@, p@),
                decreases v@.len() - k,
            {
                assert(represents(v@[k as int], ts[k as int]));
                let next = ends(&v[k], s, &cur, Ghost(ts[k as int]));
                proof {
                    assert forall|j: int| 0 <= j < n + 1 implies #[trigger] concat_image(ts, (k + 1) as nat, s@, p@)[j] == next@[j] by {
                        if concat_image(ts, (k + 1) as nat, s@, p@)[j] {
                            let i = choose|i: int| 0 <= i < p@.len() && p@[i] && concat_at(ts, (k + 1) as nat, s@, i, j);
                            let m = choose|m: int| cut(m) == m && i <= m <= j && concat_at(ts, k as nat, s@, i, m) && matches_at(ts[k as int], s@, m, j);
                            assert(cur@[m]);
                        }
                        if next@[j] {
                            let m = choose|m: int| 0 <= m < cur@.len() && cur@[m] && matches_at(ts[k as int], s@, m, j);
                            let i = choose|i: int| 0 <= i < p@.len() && p@[i] && concat_at(ts, k as nat, s@, i, m);
                            assert(cut(m) == m);
                            assert(concat_at(ts, (k + 1) as nat, s@, i, j));
                        }
                    }
                    assert(next@ =~= concat_image(ts, (k + 1) as nat, s@, p@));
                }
                cur = next;
                k = k + 1;
            }
            proof {
                assert(cur@ =~= image(t, s@, p@));
            }
            cur
        },
    }
}

} // verus!
