//! Letter-mask arithmetic: population count of a 26-bit word mask and the
//! facts about disjoint masks that the search correctness rests on.

use vstd::prelude::*;

verus! {

/// Number of set bits in a mask.
pub open spec fn pop(m: u32) -> nat
    decreases m via pop_decreases
{
    if m == 0 {
        0
    } else {
        ((m & 1) + pop(m >> 1)) as nat
    }
}

#[via_fn]
proof fn pop_decreases(m: u32) {
    assert(m != 0 ==> m >> 1 < m) by (bit_vector);
}

/// Two masks are compatible (the words share no letter) when they have no
/// common bit.
pub open spec fn compat(cooked: Seq<u32>, a: int, b: int) -> bool {
    cooked[a] & cooked[b] == 0
}

/// Counts the set bits of a mask.
pub fn popcount(m: u32) -> (r: u32)
    ensures
        r == pop(m),
{
    let mut x = m;
    let mut r: u32 = 0;
    proof {
        lemma_pop_le_32(m);
    }
    while x != 0
        invariant
            r + pop(x) == pop(m),
            pop(m) <= 32,
        decreases x,
    {
        proof {
            assert(x >> 1 < x && (x & 1) < 2) by (bit_vector)
                requires x != 0;
        }
        r = r + (x & 1);
        x = x >> 1;
    }
    r
}

/// A mask has at most 32 set bits.
pub proof fn lemma_pop_le_32(m: u32)
    ensures
        pop(m) <= 32,
{
    lemma_pop_bound(m, 32);
}

/// A mask below 2^n has at most n set bits.
pub proof fn lemma_pop_bound(m: u32, n: u64)
    requires
        n <= 32,
        (m as u64) < (1u64 << n) || n == 32,
    ensures
        pop(m) <= n,
    decreases m,
{
    if m == 0 {
    } else {
        assert(1 <= n) by (bit_vector)
            requires n <= 32 && ((m as u64) < (1u64 << n) || n == 32) && m != 0;
        assert(((m >> 1) as u64) < (1u64 << ((n - 1) as u64)) || n - 1 == 32) by (bit_vector)
            requires 1 <= n <= 32 && ((m as u64) < (1u64 << n) || n == 32);
        assert(m >> 1 < m && (m & 1) <= 1) by (bit_vector)
            requires m != 0;
        lemma_pop_bound(m >> 1, (n - 1) as u64);
    }
}

/// Disjoint masks: the union's population count is the sum of the two.
pub proof fn lemma_pop_or_disjoint(a: u32, b: u32)
    requires
        a & b == 0,
    ensures
        pop(a | b) == pop(a) + pop(b),
    decreases (a | b),
{
    if a | b == 0 {
        assert(a == 0 && b == 0) by (bit_vector)
            requires a | b == 0;
    } else {
        assert((a | b) >> 1 == (a >> 1) | (b >> 1)) by (bit_vector);
        assert((a >> 1) & (b >> 1) == 0) by (bit_vector)
            requires a & b == 0;
        assert(((a | b) >> 1) < (a | b)) by (bit_vector)
            requires a | b != 0;
        assert((a | b) & 1 == (a & 1) + (b & 1)) by (bit_vector)
            requires a & b == 0;
        lemma_pop_or_disjoint(a >> 1, b >> 1);
        assert(a == 0 ==> a & 1 == 0 && a >> 1 == 0) by (bit_vector);
        assert(b == 0 ==> b & 1 == 0 && b >> 1 == 0) by (bit_vector);
        assert(pop(a) == (a & 1) + pop(a >> 1));
        assert(pop(b) == (b & 1) + pop(b >> 1));
    }
}

/// Five pairwise disjoint masks of five bits each unite to 25 bits.
pub proof fn lemma_five_disjoint_pop(a: u32, b: u32, c: u32, d: u32, e: u32)
    requires
        a & b == 0,
        a & c == 0,
        a & d == 0,
        a & e == 0,
        b & c == 0,
        b & d == 0,
        b & e == 0,
        c & d == 0,
        c & e == 0,
        d & e == 0,
        pop(a) == 5,
        pop(b) == 5,
        pop(c) == 5,
        pop(d) == 5,
        pop(e) == 5,
    ensures
        pop(a | b | c | d | e) == 25,
{
    lemma_or_and_zero(a, b, c);
    lemma_or_and_zero(a | b, c, d);
    lemma_or_and_zero(a, b, d);
    lemma_or_and_zero(a | b | c, d, e);
    lemma_or_and_zero(a | b, c, e);
    lemma_or_and_zero(a, b, e);
    lemma_pop_or_disjoint(a, b);
    lemma_pop_or_disjoint(a | b, c);
    lemma_pop_or_disjoint(a | b | c, d);
    lemma_pop_or_disjoint(a | b | c | d, e);
}

/// A mask whose conjunction with a union is empty misses both parts.
pub proof fn lemma_or_and_zero(a: u32, b: u32, c: u32)
    ensures
        ((a | b) & c == 0) <==> (a & c == 0 && b & c == 0),
{
    assert(((a | b) & c == 0) <==> (a & c == 0 && b & c == 0)) by (bit_vector);
}

} // verus!
