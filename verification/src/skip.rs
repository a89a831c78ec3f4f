//! The skip table: for every candidate `i` and start position `j`, the
//! smallest index at or after `j` whose mask shares no bit with candidate
//! `i`'s mask, with the candidate count as the "none found" sentinel.
//!
//! The table is stored flat, row-major, each row holding the columns
//! `i..=n`; it is the structure that lets the search jump past colliding
//! candidates instead of rescanning.

use vstd::prelude::*;
use crate::masks::compat;

verus! {

/// `s` is the smallest index at or after `j` compatible with candidate `i`,
/// or the candidate count when no such index exists.
pub open spec fn first_compat_from(cooked: Seq<u32>, i: int, j: int, s: int) -> bool {
    &&& j <= s <= cooked.len()
    &&& (s < cooked.len() ==> compat(cooked, i, s))
    &&& forall|x: int| j <= x < s ==> !compat(cooked, i, x)
}

/// Flat position of row `i`, column `j` in a table of `n` rows with `n + 1`
/// columns each.
pub closed spec fn flat(n: int, i: int, j: int) -> int {
    i * (n + 1) + j
}

pub proof fn lemma_flat(n: int, i: int, j: int)
    requires
        0 <= i < n,
        0 <= j <= n,
    ensures
        flat(n, i, j) == i * (n + 1) + j,
        0 <= flat(n, i, j) < n * (n + 1),
{
    assert(i * (n + 1) + j < n * (n + 1)) by (nonlinear_arith)
        requires 0 <= i < n && 0 <= j <= n;
    assert(0 <= i * (n + 1)) by (nonlinear_arith)
        requires 0 <= i && 0 <= n;
}

pub proof fn lemma_flat_ne(n: int, i1: int, j1: int, i2: int, j2: int)
    requires
        0 <= i1 < n,
        0 <= j1 <= n,
        0 <= i2 < n,
        0 <= j2 <= n,
        i1 != i2 || j1 != j2,
    ensures
        flat(n, i1, j1) != flat(n, i2, j2),
{
    assert(0 <= j1 <= n && 0 <= j2 <= n && (i1 != i2 || j1 != j2)
        ==> i1 * (n + 1) + j1 != i2 * (n + 1) + j2) by (nonlinear_arith);
}

/// The skip table over `n` candidates.
pub struct SkipTable {
    pub data: Vec<u16>,
    pub n: usize,
}

impl SkipTable {
    /// Structural well-formedness: a full rectangle of entries, each at most
    /// the sentinel `n`.
    pub open spec fn inv(self) -> bool {
        &&& self.n <= 0xFFFF
        &&& self.data@.len() == self.n * (self.n + 1)
        &&& forall|p: int| 0 <= p < self.data@.len() ==> #[trigger] self.data@[p] <= self.n
    }

    /// The entry at row `i`, column `j`.
    pub open spec fn at(self, i: int, j: int) -> int {
        self.data@[flat(self.n as int, i, j)] as int
    }

    /// Functional correctness against a candidate array: every entry of the
    /// used triangle is the first compatible index at or after its column.
    pub open spec fn correct(self, cooked: Seq<u32>) -> bool {
        &&& self.n == cooked.len()
        &&& forall|i: int, j: int|
            0 <= i < self.n && i <= j <= self.n
                ==> first_compat_from(cooked, i, j, #[trigger] self.at(i, j))
    }

    /// Reads the entry at row `i`, column `j`.
    pub fn get(&self, i: usize, j: usize) -> (r: usize)
        requires
            self.inv(),
            i < self.n,
            j <= self.n,
        ensures
            r == self.at(i as int, j as int),
            r <= self.n,
    {
        proof {
            lemma_flat(self.n as int, i as int, j as int);
            mul_fits(self.n);
        }
        self.data[i * (self.n + 1) + j] as usize
    }
}

/// With at most 0xFFFF rows the flat table size fits the machine word.
proof fn mul_fits(n: usize)
    requires
        n <= 0xFFFF,
    ensures
        n * (n + 1) <= 0xFFFF_0000,
{
    assert(n <= 0xFFFF ==> n * (n + 1) <= 0xFFFF * 0x10000) by (nonlinear_arith);
}

/// Builds the skip table for a candidate array, each row swept right to
/// left from the sentinel column, carrying the nearest compatible index.
pub fn build_skip_table(cooked: &Vec<u32>) -> (t: SkipTable)
    requires
        cooked@.len() <= 0xFFFF,
    ensures
        t.inv(),
        t.correct(cooked@),
{
    let n = cooked.len();
    proof {
        mul_fits(n);
    }
    let mut data: Vec<u16> = vec![0u16; n * (n + 1)];
    let mut i: usize = 0;
    while i < n
        invariant
            i <= n,
            n == cooked@.len(),
            n <= 0xFFFF,
            data@.len() == n * (n + 1),
            forall|p: int| 0 <= p < data@.len() ==> #[trigger] data@[p] <= n,
            forall|r: int, c: int|
                0 <= r < i && r <= c <= n
                    ==> first_compat_from(cooked@, r, c, #[trigger] data@[flat(n as int, r, c)] as int),
        decreases n - i,
    {
        let a = cooked[i];
        let mut next: u16 = n as u16;
        proof {
            lemma_flat(n as int, i as int, n as int);
            mul_fits(n);
        }
        data.set(i * (n + 1) + n, next);
        proof {
            assert forall|r: int, c: int|
                0 <= r < i && r <= c <= n
                    implies first_compat_from(cooked@, r, c, data@[flat(n as int, r, c)] as int) by {
                lemma_flat(n as int, r, c);
                lemma_flat_ne(n as int, r, c, i as int, n as int);
            }
        }
        let mut j: usize = n;
        while j > i
            invariant
                i <= j <= n,
                i < n,
                n == cooked@.len(),
                n <= 0xFFFF,
                next <= n,
                a == cooked@[i as int],
                data@.len() == n * (n + 1),
                forall|p: int| 0 <= p < data@.len() ==> #[trigger] data@[p] <= n,
                first_compat_from(cooked@, i as int, j as int, next as int),
                forall|c: int|
                    j <= c <= n
                        ==> first_compat_from(cooked@, i as int, c, #[trigger] data@[flat(n as int, i as int, c)] as int),
                forall|r: int, c: int|
                    0 <= r < i && r <= c <= n
                        ==> first_compat_from(cooked@, r, c, #[trigger] data@[flat(n as int, r, c)] as int),
            decreases j,
        {
            j = j - 1;
            let b = cooked[j];
            if a & b == 0 {
                next = j as u16;
            }
            proof {
                lemma_flat(n as int, i as int, j as int);
                mul_fits(n);
            }
            data.set(i * (n + 1) + j, next);
            proof {
                assert(first_compat_from(cooked@, i as int, j as int, next as int));
                assert forall|c: int|
                    j <= c <= n
                        implies first_compat_from(cooked@, i as int, c, data@[flat(n as int, i as int, c)] as int) by {
                    lemma_flat(n as int, i as int, c);
                    if c != j {
                        lemma_flat_ne(n as int, i as int, c, i as int, j as int);
                    }
                }
                assert forall|r: int, c: int|
                    0 <= r < i && r <= c <= n
                        implies first_compat_from(cooked@, r, c, data@[flat(n as int, r, c)] as int) by {
                    lemma_flat(n as int, r, c);
                    lemma_flat_ne(n as int, r, c, i as int, j as int);
                }
            }
        }
        i = i + 1;
    }
    let t = SkipTable { data, n };
    proof {
        assert forall|i0: int, j0: int|
            0 <= i0 < t.n && i0 <= j0 <= t.n
                implies first_compat_from(cooked@, i0, j0, t.at(i0, j0)) by {
            lemma_flat(n as int, i0, j0);
        }
    }
    t
}

/// The diagonal shortcut: `first[i]` is `skip[i][i]`, the first candidate at
/// or after `i` that does not collide with `i` itself.
pub fn first_array(t: &SkipTable) -> (first: Vec<u16>)
    requires
        t.inv(),
    ensures
        first@.len() == t.n,
        forall|i: int| 0 <= i < t.n ==> #[trigger] first@[i] as int == t.at(i, i),
{
    let mut first: Vec<u16> = Vec::new();
    let mut i: usize = 0;
    while i < t.n
        invariant
            i <= t.n,
            t.inv(),
            first@.len() == i,
            forall|p: int| 0 <= p < i ==> #[trigger] first@[p] as int == t.at(p, p),
        decreases t.n - i,
    {
        let v = t.get(i, i);
        first.push(v as u16);
        i = i + 1;
    }
    first
}

} // verus!
