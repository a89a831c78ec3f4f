//! The candidate set: the kept words sorted by mask value descending (so
//! rarer-letter words sort first and anagrams sit together), the mask array
//! with exact duplicates collapsed, the index map from each candidate back
//! to its first word, and the split index bounding the outer search range.

use vstd::prelude::*;
use crate::words::Word;

verus! {

broadcast use {
    vstd::seq_lib::group_to_multiset_ensures,
    vstd::multiset::group_multiset_axioms,
    vstd::prelude::Seq::filter_distributes_over_add,
    vstd::prelude::Seq::lemma_filter_push,
};

/// The two highest-order mask bits, owned by the two rarest letters.
pub open spec fn rare_bits() -> u32 {
    0x0300_0000
}

/// The subsequence of words carrying mask `b`, in their present order.
pub open spec fn mask_run(s: Seq<Word>, b: u32) -> Seq<Word> {
    s.filter(|w: Word| w.bitset == b)
}

proof fn lemma_mask_run_none(s: Seq<Word>, b: u32)
    requires
        forall|q: int| 0 <= q < s.len() ==> (#[trigger] s[q]).bitset != b,
    ensures
        mask_run(s, b) == Seq::<Word>::empty(),
    decreases s.len(),
{
    reveal(Seq::filter);
    if s.len() > 0 {
        lemma_mask_run_none(s.drop_last(), b);
    }
}

proof fn lemma_mask_run_single(w: Word, b: u32)
    ensures
        mask_run(seq![w], b) == if w.bitset == b {
            seq![w]
        } else {
            Seq::<Word>::empty()
        },
{
    reveal(Seq::filter);
    assert(seq![w].drop_last() =~= Seq::<Word>::empty());
    if w.bitset == b {
        assert(mask_run(seq![w], b) =~= seq![w]);
    }
}

/// Sorts the words by mask value, descending, so that anagram groups are
/// contiguous; the result is a rearrangement of the input (equal as
/// multisets), and the sort is stable: the words of any one mask keep
/// their corpus order.
#[verifier::loop_isolation(false)]
pub fn sort_words(words: Vec<Word>) -> (sorted: Vec<Word>)
    ensures
        sorted@.len() == words@.len(),
        sorted@.to_multiset() == words@.to_multiset(),
        forall|p: int, q: int|
            0 <= p < q < sorted@.len() ==> sorted@[p].bitset >= sorted@[q].bitset,
        forall|b: u32| #[trigger] mask_run(sorted@, b) == mask_run(words@, b),
{
    let ghost orig = words@;
    let mut rem = words;
    let mut out: Vec<Word> = Vec::new();
    proof {
        assert(out@.to_multiset().add(rem@.to_multiset()) =~= orig.to_multiset());
        assert forall|b: u32| #[trigger]
            mask_run(out@, b) + mask_run(rem@, b) == mask_run(orig, b) by {
            lemma_mask_run_none(out@, b);
            assert(mask_run(out@, b) + mask_run(rem@, b) =~= mask_run(orig, b));
        }
    }
    while rem.len() > 0
        invariant
            out@.to_multiset().add(rem@.to_multiset()) == orig.to_multiset(),
            out@.len() + rem@.len() == orig.len(),
            forall|p: int, q: int| 0 <= p < q < out@.len() ==> out@[p].bitset >= out@[q].bitset,
            forall|p: int, q: int|
                0 <= p < out@.len() && 0 <= q < rem@.len() ==> out@[p].bitset >= rem@[q].bitset,
            forall|b: u32| #[trigger] mask_run(out@, b) + mask_run(rem@, b) == mask_run(orig, b),
        decreases rem@.len(),
    {
        let mut mi: usize = 0;
        let mut t: usize = 1;
        while t < rem.len()
            invariant
                mi < t <= rem@.len(),
                forall|q: int| 0 <= q < t ==> rem@[q].bitset <= rem@[mi as int].bitset,
                forall|q: int| 0 <= q < mi ==> rem@[q].bitset < rem@[mi as int].bitset,
            decreases rem@.len() - t,
        {
            if rem[t].bitset > rem[mi].bitset {
                mi = t;
            }
            t = t + 1;
        }
        let ghost rem_old = rem@;
        let ghost out_old = out@;
        let w = rem.remove(mi);
        out.push(w);
        proof {
            assert(out@.to_multiset() =~= out@.drop_last().to_multiset().insert(w)) by {
                assert(out@.drop_last().push(w) =~= out@);
            }
            assert(rem@.to_multiset() =~= rem_old.to_multiset().remove(w));
            assert(rem_old.to_multiset().count(w) > 0) by {
                assert(rem_old.contains(w));
            }
            assert(out@.to_multiset().add(rem@.to_multiset()) =~= orig.to_multiset());
            assert forall|q: int| 0 <= q < rem@.len() implies rem@[q].bitset <= w.bitset by {
                if q < mi {
                    assert(rem@[q] == rem_old[q]);
                } else {
                    assert(rem@[q] == rem_old[q + 1]);
                }
            }
            // Stability: the word taken is the first of its mask still
            // remaining, so every per-mask subsequence is preserved.
            let front = rem_old.subrange(0, mi as int);
            let back = rem_old.subrange(mi as int + 1, rem_old.len() as int);
            assert(rem@ =~= front + back);
            assert(rem_old =~= front + (seq![w] + back));
            assert forall|b: u32| #[trigger]
                mask_run(out@, b) + mask_run(rem@, b) == mask_run(orig, b) by {
                lemma_mask_run_single(w, b);
                assert(mask_run(rem_old, b) == mask_run(front, b) + (mask_run(seq![w], b)
                    + mask_run(back, b)));
                assert(mask_run(rem@, b) == mask_run(front, b) + mask_run(back, b));
                if b == w.bitset {
                    lemma_mask_run_none(front, b);
                    assert(mask_run(out@, b) =~= mask_run(out_old, b).push(w));
                    assert(mask_run(out@, b) + mask_run(rem@, b) =~= mask_run(out_old, b) + (
                    mask_run(front, b) + (seq![w] + mask_run(back, b))));
                } else {
                    assert(mask_run(out@, b) =~= mask_run(out_old, b));
                }
                assert(mask_run(out@, b) + mask_run(rem@, b) =~= mask_run(orig, b));
            }
        }
    }
    proof {
        assert forall|b: u32| #[trigger] mask_run(out@, b) == mask_run(orig, b) by {
            lemma_mask_run_none(rem@, b);
            assert(mask_run(out@, b) =~= mask_run(out@, b) + mask_run(rem@, b));
        }
    }
    out
}

/// Mask `x` occurs among the first `bound` words.
pub open spec fn has_mask(words: Seq<Word>, bound: int, x: u32) -> bool {
    exists|i: int| 0 <= i < bound && words[i].bitset == x
}

/// Collapses exact duplicate masks of the sorted word list: the candidate
/// array, strictly descending, holding exactly the mask values that occur.
#[verifier::loop_isolation(false)]
pub fn dedup_masks(words: &Vec<Word>) -> (cooked: Vec<u32>)
    requires
        forall|p: int, q: int| 0 <= p < q < words@.len() ==> words@[p].bitset >= words@[q].bitset,
    ensures
        cooked@.len() <= words@.len(),
        forall|p: int, q: int| 0 <= p < q < cooked@.len() ==> cooked@[p] > cooked@[q],
        forall|x: u32| cooked@.contains(x) <==> has_mask(words@, words@.len() as int, x),
{
    let mut cooked: Vec<u32> = Vec::new();
    let mut wi: usize = 0;
    while wi < words.len()
        invariant
            wi <= words@.len(),
            cooked@.len() <= wi,
            forall|p: int, q: int| 0 <= p < q < cooked@.len() ==> cooked@[p] > cooked@[q],
            forall|x: u32| cooked@.contains(x) <==> has_mask(words@, wi as int, x),
            wi > 0 ==> cooked@.len() > 0 && cooked@.last() == words@[wi as int - 1].bitset,
        decreases words@.len() - wi,
    {
        let b = words[wi].bitset;
        let ghost pre = cooked@;
        if wi == 0 || cooked[cooked.len() - 1] != b {
            proof {
                if wi > 0 {
                    assert(words@[wi as int - 1].bitset >= b);
                    assert(pre.last() > b);
                    assert forall|p: int| 0 <= p < pre.len() implies pre[p] > b by {
                        if p < pre.len() - 1 {
                            assert(pre[p] > pre.last());
                        }
                    }
                } else {
                    assert(pre.len() == 0) by {
                        if pre.len() > 0 {
                            assert(pre.contains(pre[0]));
                        }
                    }
                }
            }
            cooked.push(b);
            proof {
                assert(cooked@ == pre.push(b));
                assert forall|x: u32| cooked@.contains(x) implies has_mask(
                    words@,
                    wi as int + 1,
                    x,
                ) by {
                    let p = choose|p: int| 0 <= p < cooked@.len() && cooked@[p] == x;
                    if p < cooked@.len() - 1 {
                        assert(pre[p] == x);
                        assert(pre.contains(x));
                        assert(has_mask(words@, wi as int, x));
                        let i = choose|i: int| 0 <= i < wi && words@[i].bitset == x;
                        assert(words@[i].bitset == x);
                    } else {
                        assert(words@[wi as int].bitset == x);
                    }
                }
                assert forall|x: u32| has_mask(words@, wi as int + 1, x) implies cooked@.contains(
                    x,
                ) by {
                    let i = choose|i: int| 0 <= i < wi + 1 && words@[i].bitset == x;
                    if i < wi {
                        assert(has_mask(words@, wi as int, x));
                        assert(pre.contains(x));
                        let p = choose|p: int| 0 <= p < pre.len() && pre[p] == x;
                        assert(cooked@[p] == x);
                    } else {
                        assert(cooked@.last() == b);
                    }
                }
                assert forall|p: int, q: int| 0 <= p < q < cooked@.len() implies cooked@[p]
                    > cooked@[q] by {
                    if q < cooked@.len() - 1 {
                        assert(pre[p] > pre[q]);
                    } else {
                        assert(cooked@[p] == pre[p] && pre[p] > b);
                    }
                }
            }
        } else {
            proof {
                assert(words@[wi as int].bitset == cooked@.last());
                assert forall|x: u32| has_mask(words@, wi as int + 1, x) implies cooked@.contains(
                    x,
                ) by {
                    let i = choose|i: int| 0 <= i < wi + 1 && words@[i].bitset == x;
                    if i < wi {
                        assert(has_mask(words@, wi as int, x));
                    } else {
                        assert(x == cooked@.last());
                        assert(cooked@.contains(x));
                    }
                }
                assert forall|x: u32| cooked@.contains(x) implies has_mask(
                    words@,
                    wi as int + 1,
                    x,
                ) by {
                    assert(has_mask(words@, wi as int, x));
                    let i = choose|i: int| 0 <= i < wi && words@[i].bitset == x;
                    assert(words@[i].bitset == x);
                }
            }
        }
        wi = wi + 1;
    }
    cooked
}

/// For each candidate mask, the position of the first word carrying it:
/// the entry into the anagram group used when a solution is decoded.
pub fn index_map(words: &Vec<Word>, cooked: &Vec<u32>) -> (indices: Vec<u32>)
    requires
        words@.len() <= u32::MAX,
        forall|c: int|
            0 <= c < cooked@.len() ==> has_mask(words@, words@.len() as int, #[trigger] cooked@[c]),
    ensures
        indices@.len() == cooked@.len(),
        forall|c: int|
            0 <= c < cooked@.len() ==> (#[trigger] indices@[c] as int) < words@.len(),
        forall|c: int|
            0 <= c < cooked@.len() ==> words@[#[trigger] indices@[c] as int].bitset == cooked@[c],
        forall|c: int, q: int|
            0 <= c < cooked@.len() && 0 <= q < indices@[c] as int ==> words@[q].bitset != cooked@[c],
{
    let mut indices: Vec<u32> = Vec::new();
    let mut c: usize = 0;
    while c < cooked.len()
        invariant
            words@.len() <= u32::MAX,
            forall|c0: int|
                0 <= c0 < cooked@.len() ==> has_mask(
                    words@,
                    words@.len() as int,
                    #[trigger] cooked@[c0],
                ),
            c <= cooked@.len(),
            indices@.len() == c,
            forall|c0: int| 0 <= c0 < c ==> (#[trigger] indices@[c0] as int) < words@.len(),
            forall|c0: int|
                0 <= c0 < c ==> words@[#[trigger] indices@[c0] as int].bitset == cooked@[c0],
            forall|c0: int, q: int|
                0 <= c0 < c && 0 <= q < indices@[c0] as int ==> words@[q].bitset != cooked@[c0],
        decreases cooked@.len() - c,
    {
        let target = cooked[c];
        let mut p: usize = 0;
        while p < words.len()
            invariant_except_break
                has_mask(words@, words@.len() as int, target),
                p <= words@.len(),
                forall|q: int| 0 <= q < p ==> words@[q].bitset != target,
            ensures
                p < words@.len(),
                words@[p as int].bitset == target,
                forall|q: int| 0 <= q < p ==> words@[q].bitset != target,
            decreases words@.len() - p,
        {
            if words[p].bitset == target {
                break ;
            }
            p = p + 1;
            proof {
                if p == words@.len() {
                    let i = choose|i: int| 0 <= i < words@.len() && words@[i].bitset == target;
                    assert(words@[i].bitset != target);
                }
            }
        }
        indices.push(p as u32);
        c = c + 1;
    }
    indices
}

/// The position of the first candidate whose mask contains neither of the
/// two rarest letters' bits, or the candidate count when every candidate
/// holds one of them: the bound of the outer search range.
#[verifier::loop_isolation(false)]
pub fn split_index(cooked: &Vec<u32>) -> (split: usize)
    ensures
        split <= cooked@.len(),
        forall|p: int| 0 <= p < split ==> (#[trigger] cooked@[p]) & rare_bits() != 0,
        (split as int) < cooked@.len() ==> cooked@[split as int] & rare_bits() == 0,
{
    let mut p: usize = 0;
    while p < cooked.len()
        invariant
            p <= cooked@.len(),
            forall|q: int| 0 <= q < p ==> (#[trigger] cooked@[q]) & rare_bits() != 0,
        decreases cooked@.len() - p,
    {
        if cooked[p] & 0x0300_0000u32 == 0 {
            return p;
        }
        p = p + 1;
    }
    p
}

/// In the sorted word list an anagram group is contiguous: between two
/// words of equal mask every word carries that same mask, so the run of
/// words after a candidate's first word recovers its whole group.
pub proof fn lemma_anagram_group_contiguous(words: Seq<Word>, p: int, r: int, q: int)
    requires
        forall|a: int, b: int| 0 <= a < b < words.len() ==> words[a].bitset >= words[b].bitset,
        0 <= p <= r <= q < words.len(),
        words[p].bitset == words[q].bitset,
    ensures
        words[r].bitset == words[p].bitset,
{
}

/// Soundness of the split-index optimization: a solution covers 25 of the
/// 26 letters, so at least one of its words holds one of the two rarest
/// letters' bits; under the descending mask order those words all stand
/// before the split index, and the tuple's first word is among them. An
/// outer loop over `[0, split)` therefore misses no solution of the full
/// range.
pub proof fn lemma_split_complete(cooked: Seq<u32>, split: int, s: crate::search::Solution)
    requires
        forall|p: int| 0 <= p < cooked.len() ==> #[trigger] cooked[p] < 0x0400_0000,
        forall|p: int| 0 <= p < cooked.len() ==> crate::masks::pop(#[trigger] cooked[p]) == 5,
        forall|p: int, q: int| 0 <= p < q < cooked.len() ==> cooked[p] >= cooked[q],
        0 <= split <= cooked.len(),
        forall|p: int| 0 <= p < split ==> (#[trigger] cooked[p]) & rare_bits() != 0,
        split < cooked.len() ==> cooked[split] & rare_bits() == 0,
        crate::search::is_range_solution(cooked, cooked.len() as int, s),
    ensures
        crate::search::is_range_solution(cooked, split, s),
{
    if (s.i as int) >= split {
        let a = cooked[s.i as int];
        let b = cooked[s.j as int];
        let c = cooked[s.k as int];
        let d = cooked[s.l as int];
        let e = cooked[s.m as int];
        let top = cooked[split];
        assert(a <= top && b <= top && c <= top && d <= top && e <= top);
        assert(top & 0x0300_0000u32 == 0 && top < 0x0400_0000 ==> top < 0x0100_0000)
            by (bit_vector);
        assert(a < 0x0100_0000 && b < 0x0100_0000 && c < 0x0100_0000 && d < 0x0100_0000 && e
            < 0x0100_0000 ==> (a | b | c | d | e) < 0x0100_0000) by (bit_vector);
        crate::masks::lemma_five_disjoint_pop(a, b, c, d, e);
        assert((1u64 << 24u64) == 0x0100_0000) by (bit_vector);
        crate::masks::lemma_pop_bound(a | b | c | d | e, 24);
    }
}

} // verus!
