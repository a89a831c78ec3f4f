//! The pruned search engine: enumerates ordered five-tuples of pairwise
//! non-colliding candidate masks, using the skip table to jump past every
//! colliding index instead of rescanning linearly.
//!
//! The engine is exact: it reports a tuple if and only if the tuple is a
//! solution over the given outer indices, each exactly once.

use vstd::prelude::*;
use crate::masks::{compat, lemma_or_and_zero};
use crate::skip::{SkipTable, first_compat_from};

verus! {

broadcast use vstd::seq_lib::lemma_seq_contains_after_push;

/// One found five-tuple, as indices into the candidate array.
#[derive(Clone, Copy, PartialEq, Eq, Structural, Debug)]
pub struct Solution {
    pub i: usize,
    pub j: usize,
    pub k: usize,
    pub l: usize,
    pub m: usize,
}

/// Five strictly increasing candidate indices whose masks are pairwise
/// disjoint.
pub open spec fn tuple_ok(cooked: Seq<u32>, s: Solution) -> bool {
    &&& s.i < s.j && s.j < s.k && s.k < s.l && s.l < s.m && (s.m as int) < cooked.len()
    &&& compat(cooked, s.i as int, s.j as int)
    &&& compat(cooked, s.i as int, s.k as int)
    &&& compat(cooked, s.i as int, s.l as int)
    &&& compat(cooked, s.i as int, s.m as int)
    &&& compat(cooked, s.j as int, s.k as int)
    &&& compat(cooked, s.j as int, s.l as int)
    &&& compat(cooked, s.j as int, s.m as int)
    &&& compat(cooked, s.k as int, s.l as int)
    &&& compat(cooked, s.k as int, s.m as int)
    &&& compat(cooked, s.l as int, s.m as int)
}

/// A solution over `cooked` with its outermost index drawn from `outer`.
pub open spec fn is_solution(cooked: Seq<u32>, outer: Seq<usize>, s: Solution) -> bool {
    outer.contains(s.i) && tuple_ok(cooked, s)
}

/// A solution whose outermost index lies below `bound`.
pub open spec fn is_range_solution(cooked: Seq<u32>, bound: int, s: Solution) -> bool {
    (s.i as int) < bound && tuple_ok(cooked, s)
}

/// When the outer index list holds exactly the indices below `bound`, the
/// solutions over it are exactly the solutions of the range.
pub proof fn lemma_outer_range(cooked: Seq<u32>, outer: Seq<usize>, bound: int)
    requires
        forall|x: usize| #[trigger] outer.contains(x) <==> (x as int) < bound,
    ensures
        forall|s: Solution|
            #[trigger] is_solution(cooked, outer, s) <==> is_range_solution(cooked, bound, s),
{
}

/// Tuple `a` comes strictly before tuple `b` in increasing-index
/// lexicographic order.
pub open spec fn lex_less(a: Solution, b: Solution) -> bool {
    ||| a.i < b.i
    ||| (a.i == b.i && a.j < b.j)
    ||| (a.i == b.i && a.j == b.j && a.k < b.k)
    ||| (a.i == b.i && a.j == b.j && a.k == b.k && a.l < b.l)
    ||| (a.i == b.i && a.j == b.j && a.k == b.k && a.l == b.l && a.m < b.m)
}

/// The list is strictly sorted in increasing-index lexicographic order.
pub open spec fn lex_sorted(sols: Seq<Solution>) -> bool {
    forall|p: int, q: int| 0 <= p < q < sols.len() ==> lex_less(sols[p], sols[q])
}

proof fn lemma_push_lex_sorted(s: Seq<Solution>, x: Solution)
    requires
        lex_sorted(s),
        forall|p: int| 0 <= p < s.len() ==> lex_less(#[trigger] s[p], x),
    ensures
        lex_sorted(s.push(x)),
{
    let t = s.push(x);
    assert forall|p: int, q: int| 0 <= p < q < t.len() implies lex_less(t[p], t[q]) by {
        if q < s.len() {
            assert(t[p] == s[p] && t[q] == s[q]);
        } else {
            assert(t[p] == s[p] && t[q] == x);
        }
    }
}

/// The outer index `x` was already handled: it stands before position `oi`
/// in the outer index list.
spec fn done_before(outer: Seq<usize>, oi: int, x: usize) -> bool {
    exists|t: int| 0 <= t < oi && outer[t] == x
}

spec fn covered_j(outer: Seq<usize>, oi: int, i: usize, j: usize, s: Solution) -> bool {
    done_before(outer, oi, s.i) || (s.i == i && s.j < j)
}

spec fn covered_k(outer: Seq<usize>, oi: int, i: usize, j: usize, k: usize, s: Solution) -> bool {
    covered_j(outer, oi, i, j, s) || (s.i == i && s.j == j && s.k < k)
}

spec fn covered_l(
    outer: Seq<usize>,
    oi: int,
    i: usize,
    j: usize,
    k: usize,
    l: usize,
    s: Solution,
) -> bool {
    covered_k(outer, oi, i, j, k, s) || (s.i == i && s.j == j && s.k == k && s.l < l)
}

spec fn covered_m(
    outer: Seq<usize>,
    oi: int,
    i: usize,
    j: usize,
    k: usize,
    l: usize,
    m: usize,
    s: Solution,
) -> bool {
    covered_l(outer, oi, i, j, k, l, s)
        || (s.i == i && s.j == j && s.k == k && s.l == l && s.m < m)
}

/// A nonempty mask collides with itself.
proof fn lemma_self_collides(v: u32)
    requires
        v != 0,
    ensures
        v & v != 0,
{
    assert(v & v == v) by (bit_vector);
}

proof fn lemma_push_nodup(s: Seq<Solution>, x: Solution)
    requires
        s.no_duplicates(),
        !s.contains(x),
    ensures
        s.push(x).no_duplicates(),
{
    let t = s.push(x);
    assert forall|p: int, q: int| 0 <= p < t.len() && 0 <= q < t.len() && p != q
        implies t[p] != t[q] by {
        if p < s.len() && q < s.len() {
        } else if q == s.len() {
            assert(s[p] == t[p]);
            assert(!s.contains(x));
        } else {
            assert(s[q] == t[q]);
            assert(!s.contains(x));
        }
    }
}

/// Jumps to the first index at or after `from` compatible with anchor `a1`.
fn advance1(skip: &SkipTable, Ghost(cooked): Ghost<Seq<u32>>, a1: usize, from: usize) -> (r:
    usize)
    requires
        skip.inv(),
        skip.correct(cooked),
        a1 < from <= skip.n,
    ensures
        from <= r <= skip.n,
        (r as int) < cooked.len() ==> compat(cooked, a1 as int, r as int),
        forall|x: int| from <= x < r ==> !compat(cooked, a1 as int, x),
{
    let r = skip.get(a1, from);
    proof {
        assert(first_compat_from(cooked, a1 as int, from as int, skip.at(a1 as int, from as int)));
    }
    r
}

/// Jump composed over two anchors: everything skipped collides with one of
/// them.
fn advance2(
    skip: &SkipTable,
    Ghost(cooked): Ghost<Seq<u32>>,
    a1: usize,
    a2: usize,
    from: usize,
) -> (r: usize)
    requires
        skip.inv(),
        skip.correct(cooked),
        a1 < a2 < from <= skip.n,
    ensures
        from <= r <= skip.n,
        forall|x: int|
            from <= x < r ==> !compat(cooked, a1 as int, x) || !compat(cooked, a2 as int, x),
{
    let r1 = advance1(skip, Ghost(cooked), a1, from);
    if r1 >= skip.n {
        return r1;
    }
    advance1(skip, Ghost(cooked), a2, r1)
}

/// Jump composed over three anchors.
fn advance3(
    skip: &SkipTable,
    Ghost(cooked): Ghost<Seq<u32>>,
    a1: usize,
    a2: usize,
    a3: usize,
    from: usize,
) -> (r: usize)
    requires
        skip.inv(),
        skip.correct(cooked),
        a1 < a2 < a3 < from <= skip.n,
    ensures
        from <= r <= skip.n,
        forall|x: int|
            from <= x < r
                ==> !compat(cooked, a1 as int, x) || !compat(cooked, a2 as int, x) || !compat(
                cooked,
                a3 as int,
                x,
            ),
{
    let r1 = advance2(skip, Ghost(cooked), a1, a2, from);
    if r1 >= skip.n {
        return r1;
    }
    advance1(skip, Ghost(cooked), a3, r1)
}

/// Jump composed over four anchors.
fn advance4(
    skip: &SkipTable,
    Ghost(cooked): Ghost<Seq<u32>>,
    a1: usize,
    a2: usize,
    a3: usize,
    a4: usize,
    from: usize,
) -> (r: usize)
    requires
        skip.inv(),
        skip.correct(cooked),
        a1 < a2 < a3 < a4 < from <= skip.n,
    ensures
        from <= r <= skip.n,
        forall|x: int|
            from <= x < r
                ==> !compat(cooked, a1 as int, x) || !compat(cooked, a2 as int, x) || !compat(
                cooked,
                a3 as int,
                x,
            ) || !compat(cooked, a4 as int, x),
{
    let r1 = advance3(skip, Ghost(cooked), a1, a2, a3, from);
    if r1 >= skip.n {
        return r1;
    }
    advance1(skip, Ghost(cooked), a4, r1)
}

/// Runs the pruned five-deep enumeration with the outermost index ranging
/// over `outer`, a strictly increasing list of candidate indices.
///
/// The result holds exactly the solutions over `outer`, each once.
#[verifier::loop_isolation(false)]
#[verifier::rlimit(60)]
pub fn search_candidates(
    cooked: &Vec<u32>,
    skip: &SkipTable,
    first: &Vec<u16>,
    outer: &Vec<usize>,
) -> (sols: Vec<Solution>)
    requires
        skip.inv(),
        skip.correct(cooked@),
        first@.len() == cooked@.len(),
        forall|p: int| 0 <= p < cooked@.len() ==> #[trigger] first@[p] as int == skip.at(p, p),
        forall|p: int| 0 <= p < cooked@.len() ==> #[trigger] cooked@[p] != 0,
        forall|p: int| 0 <= p < outer@.len() ==> (#[trigger] outer@[p] as int) < cooked@.len(),
        forall|p: int, q: int| 0 <= p < q < outer@.len() ==> outer@[p] < outer@[q],
    ensures
        forall|s: Solution| #[trigger] sols@.contains(s) <==> is_solution(cooked@, outer@, s),
        sols@.no_duplicates(),
        lex_sorted(sols@),
{
    let n = cooked.len();
    let mut sols: Vec<Solution> = Vec::new();
    let mut oi: usize = 0;
    while oi < outer.len()
        invariant
            oi <= outer@.len(),
            sols@.no_duplicates(),
            lex_sorted(sols@),
            forall|s: Solution| #[trigger]
                sols@.contains(s) <==> is_solution(cooked@, outer@, s) && done_before(
                    outer@,
                    oi as int,
                    s.i,
                ),
        decreases outer@.len() - oi,
    {
        let i = outer[oi];
        let a = cooked[i];
        let mut j = first[i] as usize;
        proof {
            lemma_self_collides(cooked@[i as int]);
            assert(first_compat_from(cooked@, i as int, i as int, skip.at(i as int, i as int)));
        }
        while j < n
            invariant
                i < j <= n,
                compat(cooked@, i as int, j as int) || j == n,
                sols@.no_duplicates(),
                lex_sorted(sols@),
                forall|s: Solution| #[trigger]
                    sols@.contains(s) <==> is_solution(cooked@, outer@, s) && covered_j(
                        outer@,
                        oi as int,
                        i,
                        j,
                        s,
                    ),
            decreases n - j,
        {
            let b = cooked[j];
            let ab = a | b;
            let mut k = first[j] as usize;
            proof {
                lemma_self_collides(cooked@[j as int]);
                assert(first_compat_from(cooked@, j as int, j as int, skip.at(j as int, j as int)));
            }
            while k < n
                invariant
                    j < k <= n,
                    sols@.no_duplicates(),
                    lex_sorted(sols@),
                    forall|s: Solution| #[trigger]
                        sols@.contains(s) <==> is_solution(cooked@, outer@, s) && covered_k(
                            outer@,
                            oi as int,
                            i,
                            j,
                            k,
                            s,
                        ),
                decreases n - k,
            {
                let c = cooked[k];
                proof {
                    lemma_or_and_zero(a, b, c);
                }
                if ab & c == 0 {
                    let abc = ab | c;
                    let mut l = first[k] as usize;
                    proof {
                        lemma_self_collides(cooked@[k as int]);
                        assert(first_compat_from(
                            cooked@,
                            k as int,
                            k as int,
                            skip.at(k as int, k as int),
                        ));
                    }
                    while l < n
                        invariant
                            k < l <= n,
                            sols@.no_duplicates(),
                            lex_sorted(sols@),
                            forall|s: Solution| #[trigger]
                                sols@.contains(s) <==> is_solution(cooked@, outer@, s) && covered_l(
                                    outer@,
                                    oi as int,
                                    i,
                                    j,
                                    k,
                                    l,
                                    s,
                                ),
                        decreases n - l,
                    {
                        let d = cooked[l];
                        proof {
                            lemma_or_and_zero(ab, c, d);
                            lemma_or_and_zero(a, b, d);
                        }
                        if abc & d == 0 {
                            let abcd = abc | d;
                            let mut m = first[l] as usize;
                            proof {
                                lemma_self_collides(cooked@[l as int]);
                                assert(first_compat_from(
                                    cooked@,
                                    l as int,
                                    l as int,
                                    skip.at(l as int, l as int),
                                ));
                            }
                            while m < n
                                invariant
                                    l < m <= n,
                                    sols@.no_duplicates(),
                                    lex_sorted(sols@),
                                    forall|s: Solution| #[trigger]
                                        sols@.contains(s) <==> is_solution(cooked@, outer@, s)
                                            && covered_m(
                                            outer@,
                                            oi as int,
                                            i,
                                            j,
                                            k,
                                            l,
                                            m,
                                            s,
                                        ),
                                decreases n - m,
                            {
                                let e = cooked[m];
                                proof {
                                    lemma_or_and_zero(abc, d, e);
                                    lemma_or_and_zero(ab, c, e);
                                    lemma_or_and_zero(a, b, e);
                                }
                                if abcd & e == 0 {
                                    let found = Solution { i, j, k, l, m };
                                    proof {
                                        assert(outer@[oi as int] == i);
                                        assert(outer@.contains(i));
                                        assert(is_solution(cooked@, outer@, found));
                                        assert(!covered_m(
                                            outer@,
                                            oi as int,
                                            i,
                                            j,
                                            k,
                                            l,
                                            m,
                                            found,
                                        )) by {
                                            if done_before(outer@, oi as int, i) {
                                                let t = choose|t: int|
                                                    0 <= t < oi && outer@[t] == i;
                                                assert(outer@[t] < outer@[oi as int]);
                                            }
                                        }
                                        assert(!sols@.contains(found));
                                        assert forall|p: int| 0 <= p < sols@.len() implies lex_less(
                                            #[trigger] sols@[p],
                                            found,
                                        ) by {
                                            let s0 = sols@[p];
                                            assert(sols@.contains(s0));
                                            if done_before(outer@, oi as int, s0.i) {
                                                let t0 = choose|t0: int| 0 <= t0 < oi && outer@[t0] == s0.i;
                                                assert(outer@[t0] < outer@[oi as int]);
                                            }
                                        }
                                        lemma_push_lex_sorted(sols@, found);
                                        lemma_push_nodup(sols@, found);
                                    }
                                    sols.push(found);
                                }
                                m = advance4(skip, Ghost(cooked@), i, j, k, l, m + 1);
                            }
                        }
                        l = advance3(skip, Ghost(cooked@), i, j, k, l + 1);
                    }
                }
                k = advance2(skip, Ghost(cooked@), i, j, k + 1);
            }
            j = advance1(skip, Ghost(cooked@), i, j + 1);
        }
        oi = oi + 1;
        proof {
            assert forall|s: Solution|
                is_solution(cooked@, outer@, s) && done_before(outer@, oi as int, s.i)
                    implies sols@.contains(s) by {
                if s.i == i {
                    assert(covered_j(outer@, oi as int - 1, i, n, s));
                } else {
                    let t = choose|t: int| 0 <= t < oi && outer@[t] == s.i;
                    assert(0 <= t < oi - 1);
                    assert(done_before(outer@, oi as int - 1, s.i));
                }
            }
        }
    }
    proof {
        assert forall|s: Solution| is_solution(cooked@, outer@, s)
            implies sols@.contains(s) by {
            let t = choose|t: int| 0 <= t < outer@.len() && outer@[t] == s.i;
            assert(done_before(outer@, oi as int, s.i));
        }
    }
    sols
}

/// The reference enumeration: a quintuple-nested loop advancing one index
/// at a time, rejecting a candidate on any pairwise collision. Exists to
/// state and test that the skip-jump traversal is a pure optimization.
#[verifier::loop_isolation(false)]
#[verifier::rlimit(60)]
pub fn brute_force_candidates(cooked: &Vec<u32>, outer: &Vec<usize>) -> (sols: Vec<Solution>)
    requires
        forall|p: int| 0 <= p < outer@.len() ==> (#[trigger] outer@[p] as int) < cooked@.len(),
        forall|p: int, q: int| 0 <= p < q < outer@.len() ==> outer@[p] < outer@[q],
    ensures
        forall|s: Solution| #[trigger] sols@.contains(s) <==> is_solution(cooked@, outer@, s),
        sols@.no_duplicates(),
        lex_sorted(sols@),
{
    let n = cooked.len();
    let mut sols: Vec<Solution> = Vec::new();
    let mut oi: usize = 0;
    while oi < outer.len()
        invariant
            oi <= outer@.len(),
            sols@.no_duplicates(),
            lex_sorted(sols@),
            forall|s: Solution| #[trigger]
                sols@.contains(s) <==> is_solution(cooked@, outer@, s) && done_before(
                    outer@,
                    oi as int,
                    s.i,
                ),
        decreases outer@.len() - oi,
    {
        let i = outer[oi];
        let a = cooked[i];
        let mut j = i + 1;
        while j < n
            invariant
                i < j <= n,
                sols@.no_duplicates(),
                lex_sorted(sols@),
                forall|s: Solution| #[trigger]
                    sols@.contains(s) <==> is_solution(cooked@, outer@, s) && covered_j(
                        outer@,
                        oi as int,
                        i,
                        j,
                        s,
                    ),
            decreases n - j,
        {
            let b = cooked[j];
            if a & b == 0 {
                let mut k = j + 1;
                while k < n
                    invariant
                        j < k <= n,
                        sols@.no_duplicates(),
                        lex_sorted(sols@),
                        forall|s: Solution| #[trigger]
                            sols@.contains(s) <==> is_solution(cooked@, outer@, s) && covered_k(
                                outer@,
                                oi as int,
                                i,
                                j,
                                k,
                                s,
                            ),
                    decreases n - k,
                {
                    let c = cooked[k];
                    if a & c == 0 && b & c == 0 {
                        let mut l = k + 1;
                        while l < n
                            invariant
                                k < l <= n,
                                sols@.no_duplicates(),
                                lex_sorted(sols@),
                                forall|s: Solution| #[trigger]
                                    sols@.contains(s) <==> is_solution(cooked@, outer@, s)
                                        && covered_l(
                                        outer@,
                                        oi as int,
                                        i,
                                        j,
                                        k,
                                        l,
                                        s,
                                    ),
                            decreases n - l,
                        {
                            let d = cooked[l];
                            if a & d == 0 && b & d == 0 && c & d == 0 {
                                let mut m = l + 1;
                                while m < n
                                    invariant
                                        l < m <= n,
                                        sols@.no_duplicates(),
                                        lex_sorted(sols@),
                                        forall|s: Solution| #[trigger]
                                            sols@.contains(s) <==> is_solution(cooked@, outer@, s)
                                                && covered_m(
                                                outer@,
                                                oi as int,
                                                i,
                                                j,
                                                k,
                                                l,
                                                m,
                                                s,
                                            ),
                                    decreases n - m,
                                {
                                    let e = cooked[m];
                                    if a & e == 0 && b & e == 0 && c & e == 0 && d & e == 0 {
                                        let found = Solution { i, j, k, l, m };
                                        proof {
                                            assert(outer@[oi as int] == i);
                                            assert(outer@.contains(i));
                                            assert(is_solution(cooked@, outer@, found));
                                            assert(!covered_m(
                                                outer@,
                                                oi as int,
                                                i,
                                                j,
                                                k,
                                                l,
                                                m,
                                                found,
                                            )) by {
                                                if done_before(outer@, oi as int, i) {
                                                    let t = choose|t: int|
                                                        0 <= t < oi && outer@[t] == i;
                                                    assert(outer@[t] < outer@[oi as int]);
                                                }
                                            }
                                            assert(!sols@.contains(found));
                                            assert forall|p: int| 0 <= p < sols@.len() implies lex_less(
                                                #[trigger] sols@[p],
                                                found,
                                            ) by {
                                                let s0 = sols@[p];
                                                assert(sols@.contains(s0));
                                                if done_before(outer@, oi as int, s0.i) {
                                                    let t0 = choose|t0: int| 0 <= t0 < oi && outer@[t0] == s0.i;
                                                    assert(outer@[t0] < outer@[oi as int]);
                                                }
                                            }
                                            lemma_push_lex_sorted(sols@, found);
                                            lemma_push_nodup(sols@, found);
                                        }
                                        sols.push(found);
                                    }
                                    m = m + 1;
                                }
                            }
                            l = l + 1;
                        }
                    }
                    k = k + 1;
                }
            }
            j = j + 1;
        }
        oi = oi + 1;
        proof {
            assert forall|s: Solution|
                is_solution(cooked@, outer@, s) && done_before(outer@, oi as int, s.i)
                    implies sols@.contains(s) by {
                if s.i == i {
                    assert(covered_j(outer@, oi as int - 1, i, n, s));
                } else {
                    let t = choose|t: int| 0 <= t < oi && outer@[t] == s.i;
                    assert(0 <= t < oi - 1);
                    assert(done_before(outer@, oi as int - 1, s.i));
                }
            }
        }
    }
    proof {
        assert forall|s: Solution| is_solution(cooked@, outer@, s)
            implies sols@.contains(s) by {
            let t = choose|t: int| 0 <= t < outer@.len() && outer@[t] == s.i;
            assert(done_before(outer@, oi as int, s.i));
        }
    }
    sols
}

/// Any two masks accepted into one solution tuple share no bit.
pub proof fn lemma_solution_masks_disjoint(
    cooked: Seq<u32>,
    outer: Seq<usize>,
    s: Solution,
    x: int,
    y: int,
)
    requires
        is_solution(cooked, outer, s),
        (x == s.i || x == s.j || x == s.k || x == s.l || x == s.m),
        (y == s.i || y == s.j || y == s.k || y == s.l || y == s.m),
        x != y,
    ensures
        cooked[x] & cooked[y] == 0,
{
    assert forall|a: u32, b: u32| a & b == 0 implies b & a == 0 by {
        assert(a & b == b & a) by (bit_vector);
    }
}

/// The five masks of a solution cover 25 distinct letters: when every
/// candidate mask has exactly five bits, the union of a solution's masks
/// has population count exactly 25.
pub proof fn lemma_solution_covers_25(cooked: Seq<u32>, outer: Seq<usize>, s: Solution)
    requires
        is_solution(cooked, outer, s),
        forall|p: int| 0 <= p < cooked.len() ==> crate::masks::pop(#[trigger] cooked[p]) == 5,
    ensures
        crate::masks::pop(
            cooked[s.i as int] | cooked[s.j as int] | cooked[s.k as int] | cooked[s.l as int]
                | cooked[s.m as int],
        ) == 25,
{
    crate::masks::lemma_five_disjoint_pop(
        cooked[s.i as int],
        cooked[s.j as int],
        cooked[s.k as int],
        cooked[s.l as int],
        cooked[s.m as int],
    );
}

/// Two exact enumerations of the same candidate array and outer indices
/// produce the same set of solutions and the same count: the skip-jump
/// traversal changes no results against the one-step reference traversal.
pub proof fn lemma_engines_agree(
    cooked: Seq<u32>,
    outer: Seq<usize>,
    s1: Seq<Solution>,
    s2: Seq<Solution>,
)
    requires
        forall|s: Solution| #[trigger] s1.contains(s) <==> is_solution(cooked, outer, s),
        forall|s: Solution| #[trigger] s2.contains(s) <==> is_solution(cooked, outer, s),
        s1.no_duplicates(),
        s2.no_duplicates(),
    ensures
        s1.to_set() == s2.to_set(),
        s1.len() == s2.len(),
{
    broadcast use vstd::set::group_set_axioms;

    assert(s1.to_set() =~= s2.to_set());
    s1.unique_seq_to_set();
    s2.unique_seq_to_set();
}

} // verus!
