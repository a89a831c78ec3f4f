//! The work partitioner: splits the outer search range into interleaved
//! per-worker index slices (worker `t` takes `t`, `t + count`, ...), and
//! the proof that the slices together find exactly what a single full-range
//! run finds — the same solutions and the same total count.

use vstd::prelude::*;
use crate::search::{Solution, is_solution, is_range_solution};

verus! {

/// The indices `0, 1, ..., bound - 1`: the outer list of a single-worker
/// (full range) run.
pub fn make_range(bound: usize) -> (r: Vec<usize>)
    ensures
        r@.len() == bound,
        forall|p: int| 0 <= p < bound ==> #[trigger] r@[p] == p,
        forall|p: int, q: int| 0 <= p < q < bound ==> r@[p] < r@[q],
        forall|x: usize| #[trigger] r@.contains(x) <==> (x as int) < bound,
{
    let mut r: Vec<usize> = Vec::new();
    let mut x: usize = 0;
    while x < bound
        invariant
            x <= bound,
            r@.len() == x,
            forall|p: int| 0 <= p < x ==> #[trigger] r@[p] == p,
        decreases bound - x,
    {
        r.push(x);
        x = x + 1;
    }
    proof {
        assert forall|y: usize| #[trigger] r@.contains(y) <==> (y as int) < bound by {
            if (y as int) < bound {
                assert(r@[y as int] == y);
            }
            if r@.contains(y) {
                let p = choose|p: int| 0 <= p < r@.len() && r@[p] == y;
            }
        }
    }
    r
}

/// Index `x` belongs to worker `t` of `count`: it lies in the range and
/// leaves remainder `t` when divided by the worker count.
pub open spec fn stride_member(bound: int, count: int, t: int, x: int) -> bool {
    0 <= x < bound && x % count == t
}

proof fn lemma_mod_window(c: int, x: int, y: int)
    requires
        c >= 1,
        x <= y < x + c,
        0 <= x,
        x % c == y % c,
    ensures
        y == x,
{
    let qx = x / c;
    let qy = y / c;
    vstd::arithmetic::div_mod::lemma_fundamental_div_mod(x, c);
    vstd::arithmetic::div_mod::lemma_fundamental_div_mod(y, c);
    assert(c * qy - c * qx == c * (qy - qx)) by (nonlinear_arith);
    assert(y - x == c * (qy - qx));
    assert(0 <= c * (qy - qx) < c ==> qy - qx == 0) by (nonlinear_arith)
        requires c >= 1;
}

/// Worker `t`'s slice of the outer range: `t`, `t + count`, `t + 2·count`,
/// and so on below `bound`.
pub fn stride_indices(t: usize, count: usize, bound: usize) -> (r: Vec<usize>)
    requires
        1 <= count,
        t < count,
        bound + count <= usize::MAX,
    ensures
        forall|p: int, q: int| 0 <= p < q < r@.len() ==> r@[p] < r@[q],
        forall|p: int| 0 <= p < r@.len() ==> (#[trigger] r@[p] as int) < bound,
        forall|x: usize| #[trigger] r@.contains(x) <==> stride_member(
            bound as int,
            count as int,
            t as int,
            x as int,
        ),
{
    let mut r: Vec<usize> = Vec::new();
    let mut x: usize = t;
    proof {
        vstd::arithmetic::div_mod::lemma_small_mod(t as nat, count as nat);
        assert forall|y: usize|
            (y as int) < t && stride_member(bound as int, count as int, t as int, y as int)
                implies false by {
            vstd::arithmetic::div_mod::lemma_small_mod(y as nat, count as nat);
        }
    }
    while x < bound
        invariant
            1 <= count,
            t < count,
            bound + count <= usize::MAX,
            x as int % count as int == t as int,
            forall|p: int| 0 <= p < r@.len() ==> (#[trigger] r@[p] as int) < bound,
            forall|p: int| 0 <= p < r@.len() ==> (#[trigger] r@[p] as int) < x,
            forall|p: int, q: int| 0 <= p < q < r@.len() ==> r@[p] < r@[q],
            forall|y: usize| #[trigger]
                r@.contains(y) <==> ((y as int) < x && stride_member(
                    bound as int,
                    count as int,
                    t as int,
                    y as int,
                )),
        decreases bound + count - x,
    {
        let ghost pre = r@;
        r.push(x);
        let ghost x0 = x as int;
        x = x + count;
        proof {
            vstd::arithmetic::div_mod::lemma_mod_add_multiples_vanish(x0, count as int);
            assert(x as int % count as int == t as int);
            assert forall|y: usize| #[trigger] r@.contains(y) implies ((y as int) < x
                && stride_member(bound as int, count as int, t as int, y as int)) by {
                let p = choose|p: int| 0 <= p < r@.len() && r@[p] == y;
                if p < pre.len() {
                    assert(pre.contains(y)) by {
                        assert(pre[p] == y);
                    }
                }
            }
            assert forall|y: usize|
                ((y as int) < x && stride_member(bound as int, count as int, t as int, y as int))
                implies #[trigger] r@.contains(y) by {
                if (y as int) < x0 {
                    assert(pre.contains(y));
                    let p = choose|p: int| 0 <= p < pre.len() && pre[p] == y;
                    assert(r@[p] == y);
                } else {
                    lemma_mod_window(count as int, x0, y as int);
                    assert(r@.last() == y);
                }
            }
        }
    }
    proof {
        assert forall|y: usize| #[trigger] r@.contains(y) <==> stride_member(
            bound as int,
            count as int,
            t as int,
            y as int,
        ) by {}
    }
    r
}

/// Over a stride slice, the engine's solutions are exactly the range
/// solutions whose outermost index falls to this worker.
pub proof fn lemma_stride_outer(
    cooked: Seq<u32>,
    outer: Seq<usize>,
    bound: int,
    count: int,
    t: int,
)
    requires
        forall|x: usize| #[trigger] outer.contains(x) <==> stride_member(bound, count, t, x as int),
    ensures
        forall|s: Solution|
            #[trigger] is_solution(cooked, outer, s) <==> (is_range_solution(cooked, bound, s)
                && (s.i as int) % count == t),
{
}

/// Sum of the per-worker solution counts.
pub open spec fn sum_lens(parts: Seq<Seq<Solution>>) -> int
    decreases parts.len(),
{
    if parts.len() == 0 {
        0
    } else {
        parts[0].len() + sum_lens(parts.drop_first())
    }
}

/// Concatenation of the per-worker solution lists.
pub open spec fn concat_all(parts: Seq<Seq<Solution>>) -> Seq<Solution>
    decreases parts.len(),
{
    if parts.len() == 0 {
        Seq::empty()
    } else {
        parts[0] + concat_all(parts.drop_first())
    }
}

proof fn lemma_concat_len(parts: Seq<Seq<Solution>>)
    ensures
        concat_all(parts).len() == sum_lens(parts),
    decreases parts.len(),
{
    if parts.len() > 0 {
        lemma_concat_len(parts.drop_first());
    }
}

proof fn lemma_concat_contains(a: Seq<Solution>, b: Seq<Solution>, x: Solution)
    ensures
        (a + b).contains(x) <==> a.contains(x) || b.contains(x),
{
    if a.contains(x) {
        let p = choose|p: int| 0 <= p < a.len() && a[p] == x;
        assert((a + b)[p] == x);
    }
    if b.contains(x) {
        let p = choose|p: int| 0 <= p < b.len() && b[p] == x;
        assert((a + b)[a.len() + p] == x);
    }
    if (a + b).contains(x) {
        let p = choose|p: int| 0 <= p < (a + b).len() && (a + b)[p] == x;
        if p < a.len() {
            assert(a[p] == x);
        } else {
            assert(b[p - a.len()] == x);
        }
    }
}

proof fn lemma_concat_nodup(a: Seq<Solution>, b: Seq<Solution>)
    requires
        a.no_duplicates(),
        b.no_duplicates(),
        forall|x: Solution| !(#[trigger] a.contains(x) && b.contains(x)),
    ensures
        (a + b).no_duplicates(),
{
    let c = a + b;
    assert forall|p: int, q: int| 0 <= p < q < c.len() implies c[p] != c[q] by {
        if q < a.len() {
        } else if p >= a.len() {
            assert(c[p] == b[p - a.len()] && c[q] == b[q - a.len()]);
        } else {
            assert(c[p] == a[p] && c[q] == b[q - a.len()]);
            if c[p] == c[q] {
                assert(a.contains(c[p]));
                assert(b.contains(c[q]));
            }
        }
    }
}

/// Two duplicate-free lists with the same members have the same length.
proof fn lemma_nodup_same_len(s1: Seq<Solution>, s2: Seq<Solution>)
    requires
        s1.no_duplicates(),
        s2.no_duplicates(),
        forall|x: Solution| #[trigger] s1.contains(x) <==> s2.contains(x),
    ensures
        s1.len() == s2.len(),
{
    broadcast use vstd::set::group_set_axioms;

    assert(s1.to_set() =~= s2.to_set());
    s1.unique_seq_to_set();
    s2.unique_seq_to_set();
}

/// Worker `t`'s output is exact: the range solutions of its stride class,
/// each once.
pub open spec fn worker_exact(
    cooked: Seq<u32>,
    bound: int,
    count: int,
    t: int,
    part: Seq<Solution>,
) -> bool {
    &&& part.no_duplicates()
    &&& forall|s: Solution|
        #[trigger] part.contains(s) <==> (is_range_solution(cooked, bound, s) && (s.i as int)
            % count == t)
}

proof fn lemma_concat_workers(
    cooked: Seq<u32>,
    bound: int,
    count: int,
    t: int,
    parts: Seq<Seq<Solution>>,
)
    requires
        1 <= count,
        0 <= t <= count,
        parts.len() == count - t,
        forall|u: int|
            0 <= u < parts.len() ==> worker_exact(cooked, bound, count, t + u, #[trigger] parts[u]),
    ensures
        concat_all(parts).no_duplicates(),
        forall|s: Solution|
            #[trigger] concat_all(parts).contains(s) <==> (is_range_solution(cooked, bound, s) && (
            s.i as int) % count >= t),
    decreases parts.len(),
{
    if parts.len() == 0 {
        assert forall|s: Solution| !(#[trigger] concat_all(parts).contains(s)) by {
            if concat_all(parts).contains(s) {
                let p = choose|p: int|
                    0 <= p < concat_all(parts).len() && concat_all(parts)[p] == s;
            }
        }
        assert forall|s: Solution|
            !(is_range_solution(cooked, bound, s) && (s.i as int) % count >= t) by {
            if is_range_solution(cooked, bound, s) {
                assert((s.i as int) % count < count) by (nonlinear_arith)
                    requires count >= 1 && s.i >= 0;
            }
        }
    } else {
        let head = parts[0];
        let rest = parts.drop_first();
        assert(worker_exact(cooked, bound, count, t, head));
        assert forall|u: int|
            0 <= u < rest.len() implies worker_exact(
                cooked,
                bound,
                count,
                t + 1 + u,
                #[trigger] rest[u],
            ) by {
            assert(rest[u] == parts[u + 1]);
        }
        lemma_concat_workers(cooked, bound, count, t + 1, rest);
        assert forall|x: Solution| !(#[trigger] head.contains(x) && concat_all(rest).contains(x))
            by {}
        lemma_concat_nodup(head, concat_all(rest));
        assert forall|s: Solution| #[trigger]
            concat_all(parts).contains(s) <==> (is_range_solution(cooked, bound, s) && (
            s.i as int) % count >= t) by {
            lemma_concat_contains(head, concat_all(rest), s);
        }
    }
}

/// Running the engine once over the whole outer range, and running it once
/// per worker over the interleaved slices, yields the same solutions and
/// the same total count, whatever the worker count.
pub proof fn lemma_partition_counts(
    cooked: Seq<u32>,
    bound: int,
    count: int,
    full: Seq<Solution>,
    parts: Seq<Seq<Solution>>,
)
    requires
        1 <= count,
        parts.len() == count,
        full.no_duplicates(),
        forall|s: Solution| #[trigger] full.contains(s) <==> is_range_solution(cooked, bound, s),
        forall|t: int|
            0 <= t < count ==> worker_exact(cooked, bound, count, t, #[trigger] parts[t]),
    ensures
        sum_lens(parts) == full.len(),
        forall|s: Solution|
            #[trigger] concat_all(parts).contains(s) <==> full.contains(s),
{
    lemma_concat_workers(cooked, bound, count, 0, parts);
    lemma_concat_len(parts);
    assert forall|s: Solution| #[trigger] concat_all(parts).contains(s) <==> full.contains(s) by {
        if is_range_solution(cooked, bound, s) {
            assert((s.i as int) % count >= 0) by (nonlinear_arith)
                requires count >= 1 && s.i >= 0;
        }
    }
    lemma_nodup_same_len(concat_all(parts), full);
}

} // verus!
