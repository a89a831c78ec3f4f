//! Letter frequency analysis: tallying letter occurrences over the corpus,
//! ranking the 26 letters (most frequent first, with the two rarest rotated
//! to the front), and assigning each letter its power-of-two mask bit.

use vstd::prelude::*;

verus! {

/// A character is one of the 26 lowercase letters.
pub open spec fn is_lower(c: char) -> bool {
    97 <= c as u32 <= 122
}

/// Position of a lowercase letter in the alphabet, from 0 for 'a' to 25 for 'z'.
pub open spec fn lower_index(c: char) -> int {
    c as u32 - 97
}

/// Every character of every corpus word is a lowercase letter.
pub open spec fn all_lower(corpus: Seq<String>) -> bool {
    forall|w: int, p: int|
        0 <= w < corpus.len() && 0 <= p < corpus[w]@.len() ==> is_lower(#[trigger] corpus[w]@[p])
}

/// Occurrences of the letter with alphabet position `k` in one word.
pub open spec fn count_in_word(w: Seq<char>, k: int) -> nat
    decreases w.len(),
{
    if w.len() == 0 {
        0
    } else {
        count_in_word(w.drop_last(), k) + if lower_index(w.last()) == k {
            1nat
        } else {
            0nat
        }
    }
}

/// Occurrences of the letter with alphabet position `k` over the corpus.
pub open spec fn count_in_corpus(corpus: Seq<String>, k: int) -> nat
    decreases corpus.len(),
{
    if corpus.len() == 0 {
        0
    } else {
        count_in_corpus(corpus.drop_last(), k) + count_in_word(corpus.last()@, k)
    }
}

/// Total number of characters over the corpus.
pub open spec fn total_chars(corpus: Seq<String>) -> nat
    decreases corpus.len(),
{
    if corpus.len() == 0 {
        0
    } else {
        total_chars(corpus.drop_last()) + corpus.last()@.len()
    }
}

proof fn lemma_count_in_word_le(w: Seq<char>, k: int)
    ensures
        count_in_word(w, k) <= w.len(),
    decreases w.len(),
{
    if w.len() > 0 {
        lemma_count_in_word_le(w.drop_last(), k);
    }
}

proof fn lemma_count_in_corpus_le(corpus: Seq<String>, k: int)
    ensures
        count_in_corpus(corpus, k) <= total_chars(corpus),
    decreases corpus.len(),
{
    if corpus.len() > 0 {
        lemma_count_in_corpus_le(corpus.drop_last(), k);
        lemma_count_in_word_le(corpus.last()@, k);
    }
}

proof fn lemma_take_unfold(corpus: Seq<String>, i: int, k: int)
    requires
        0 <= i < corpus.len(),
    ensures
        count_in_corpus(corpus.take(i + 1), k) == count_in_corpus(corpus.take(i), k)
            + count_in_word(corpus[i]@, k),
        total_chars(corpus.take(i + 1)) == total_chars(corpus.take(i)) + corpus[i]@.len(),
{
    assert(corpus.take(i + 1).drop_last() =~= corpus.take(i));
    assert(corpus.take(i + 1).last() == corpus[i]);
}

proof fn lemma_total_chars_take_le(corpus: Seq<String>, i: int)
    requires
        0 <= i <= corpus.len(),
    ensures
        total_chars(corpus.take(i)) <= total_chars(corpus),
    decreases corpus.len() - i,
{
    if i == corpus.len() {
        assert(corpus.take(i) =~= corpus);
    } else {
        lemma_take_unfold(corpus, i, 0);
        lemma_total_chars_take_le(corpus, i + 1);
    }
}

proof fn lemma_word_take_unfold(w: Seq<char>, p: int, k: int)
    requires
        0 <= p < w.len(),
    ensures
        count_in_word(w.take(p + 1), k) == count_in_word(w.take(p), k) + if lower_index(w[p])
            == k {
            1nat
        } else {
            0nat
        },
{
    assert(w.take(p + 1).drop_last() =~= w.take(p));
    assert(w.take(p + 1).last() == w[p]);
}

/// Maps a lowercase letter to its alphabet position (0 for 'a' .. 25 for 'z').
pub fn alphabet_index(letter: char) -> (r: usize)
    requires
        is_lower(letter),
    ensures
        r == lower_index(letter),
        r < 26,
{
    letter as usize - 'a' as usize
}

/// Tallies how often each of the 26 letters occurs across the corpus.
#[verifier::loop_isolation(false)]
pub fn count_letters(corpus: &Vec<String>) -> (counts: Vec<u64>)
    requires
        all_lower(corpus@),
        total_chars(corpus@) <= u64::MAX,
    ensures
        counts@.len() == 26,
        forall|k: int| 0 <= k < 26 ==> #[trigger] counts@[k] == count_in_corpus(corpus@, k),
        counts@ == spec_counts(corpus@),
{
    let mut counts: Vec<u64> = vec![0u64; 26];
    let mut wi: usize = 0;
    while wi < corpus.len()
        invariant
            wi <= corpus@.len(),
            counts@.len() == 26,
            forall|k: int|
                0 <= k < 26 ==> #[trigger] counts@[k] == count_in_corpus(corpus@.take(wi as int), k),
        decreases corpus@.len() - wi,
    {
        let w = &corpus[wi];
        let len = w.as_str().unicode_len();
        let mut p: usize = 0;
        while p < len
            invariant
                p <= len,
                len == corpus@[wi as int]@.len(),
                wi < corpus@.len(),
                counts@.len() == 26,
                forall|k: int|
                    0 <= k < 26 ==> #[trigger] counts@[k] == count_in_corpus(
                        corpus@.take(wi as int),
                        k,
                    ) + count_in_word(corpus@[wi as int]@.take(p as int), k),
            decreases len - p,
        {
            let c = w.as_str().get_char(p);
            let idx = alphabet_index(c);
            proof {
                let k = lower_index(c);
                lemma_count_in_corpus_le(corpus@.take(wi as int), k);
                lemma_total_chars_take_le(corpus@, wi as int + 1);
                lemma_take_unfold(corpus@, wi as int, k);
                lemma_count_in_word_le(corpus@[wi as int]@.take(p as int), k);
                assert(corpus@[wi as int]@.take(p as int).len() <= len);
                assert forall|k2: int| 0 <= k2 < 26 implies count_in_word(
                    corpus@[wi as int]@.take(p as int + 1),
                    k2,
                ) == count_in_word(corpus@[wi as int]@.take(p as int), k2) + if lower_index(
                    corpus@[wi as int]@[p as int],
                ) == k2 {
                    1nat
                } else {
                    0nat
                } by {
                    lemma_word_take_unfold(corpus@[wi as int]@, p as int, k2);
                }
            }
            let old_count = counts[idx];
            counts.set(idx, old_count + 1);
            p = p + 1;
        }
        proof {
            assert(corpus@[wi as int]@.take(len as int) =~= corpus@[wi as int]@);
            assert forall|k: int| 0 <= k < 26 implies count_in_corpus(
                corpus@.take(wi as int + 1),
                k,
            ) == count_in_corpus(corpus@.take(wi as int), k) + count_in_word(
                corpus@[wi as int]@,
                k,
            ) by {
                lemma_take_unfold(corpus@, wi as int, k);
            }
        }
        wi = wi + 1;
    }
    proof {
        assert(corpus@.take(corpus@.len() as int) =~= corpus@);
        assert forall|k: int| 0 <= k < 26 implies counts@[k] == spec_counts(corpus@)[k] by {
            lemma_count_in_corpus_le(corpus@, k);
        }
        assert(counts@ =~= spec_counts(corpus@));
    }
    counts
}

/// The letter with alphabet position `k` appears somewhere in `order`.
pub open spec fn appears(order: Seq<u8>, k: int) -> bool {
    exists|p: int| 0 <= p < order.len() && order[p] == k
}

/// Letter `a` comes strictly before letter `b` in rank order: more frequent
/// first, ties broken by alphabet position.
pub open spec fn prec(counts: Seq<u64>, a: int, b: int) -> bool {
    counts[a] > counts[b] || (counts[a] == counts[b] && a < b)
}

/// The per-letter occurrence counts of the corpus.
pub open spec fn spec_counts(corpus: Seq<String>) -> Seq<u64> {
    Seq::new(26, |k: int| count_in_corpus(corpus, k) as u64)
}

/// `order` is the rank order of the 26 letters for these counts: a
/// permutation, most frequent first from position 2 on, with the two
/// rarest letters rotated to the front. These conditions pin `order` down
/// uniquely, since `prec` is a strict total order on distinct letters.
pub open spec fn rank_order_of(counts: Seq<u64>, order: Seq<u8>) -> bool {
    &&& order.len() == 26
    &&& forall|p: int| 0 <= p < 26 ==> #[trigger] order[p] < 26
    &&& forall|k: int| 0 <= k < 26 ==> appears(order, k)
    &&& forall|p: int, q: int| 2 <= p < q < 26 ==> prec(counts, order[p] as int, order[q] as int)
    &&& prec(counts, order[0] as int, order[1] as int)
    &&& forall|q: int| 2 <= q < 26 ==> prec(counts, #[trigger] order[q] as int, order[0] as int)
    &&& forall|q: int| 2 <= q < 26 ==> prec(counts, #[trigger] order[q] as int, order[1] as int)
    &&& forall|p: int, q: int| 0 <= p < q < 26 ==> order[p] != order[q]
}

/// `weights` is the weight table these counts induce: under the rank order
/// they determine, the letter of rank `p` owns the single mask bit
/// `1 << (25 - p)`.
pub open spec fn weights_of(counts: Seq<u64>, weights: Seq<u32>) -> bool {
    &&& weights.len() == 26
    &&& exists|order: Seq<u8>|
        #[trigger] rank_order_of(counts, order) && forall|p: int|
            0 <= p < 26 ==> weights[order[p] as int] == (1u32 << 25) >> (p as u32)
}

/// Ranks the 26 letters: positions 2..26 carry the letters from most to
/// least frequent, and the two rarest letters are rotated to the front
/// (rank 0 and 1), so that they receive the two highest-order mask bits.
#[verifier::rlimit(100)]
pub fn rank_letters(counts: &Vec<u64>) -> (order: Vec<u8>)
    requires
        counts@.len() == 26,
    ensures
        rank_order_of(counts@, order@),
{
    let mut sorted: Vec<u8> = Vec::new();
    let mut letter: u8 = 0;
    while letter < 26
        invariant
            counts@.len() == 26,
            letter <= 26,
            sorted@.len() == letter,
            forall|p: int| 0 <= p < sorted@.len() ==> #[trigger] sorted@[p] < letter,
            forall|k: int| 0 <= k < letter ==> appears(sorted@, k),
            forall|p: int, q: int|
                0 <= p < q < sorted@.len() ==> prec(counts@, sorted@[p] as int, sorted@[q] as int),
        decreases 26 - letter,
    {
        let mut pos: usize = 0;
        while pos < sorted.len()
            invariant_except_break
                counts@.len() == 26,
                letter < 26,
                forall|p: int| 0 <= p < sorted@.len() ==> #[trigger] sorted@[p] < letter,
                pos <= sorted@.len(),
                forall|p: int| 0 <= p < pos ==> prec(counts@, sorted@[p] as int, letter as int),
            ensures
                pos <= sorted@.len(),
                forall|p: int| 0 <= p < pos ==> prec(counts@, sorted@[p] as int, letter as int),
                pos < sorted@.len() ==> prec(counts@, letter as int, sorted@[pos as int] as int),
            decreases sorted@.len() - pos,
        {
            if precedes(counts, letter, sorted[pos]) {
                break ;
            }
            proof {
                let a = letter as int;
                let b = sorted@[pos as int] as int;
                assert(a != b);
                assert(!prec(counts@, a, b) ==> prec(counts@, b, a));
            }
            pos = pos + 1;
        }
        let ghost old_sorted = sorted@;
        sorted.insert(pos, letter);
        proof {
            old_sorted.insert_ensures(pos as int, letter);
            assert forall|k: int| 0 <= k < letter + 1 implies appears(sorted@, k) by {
                if k == letter {
                    assert(sorted@[pos as int] == letter);
                } else {
                    assert(appears(old_sorted, k));
                    let p0 = choose|p: int| 0 <= p < old_sorted.len() && old_sorted[p] == k;
                    if p0 < pos {
                        assert(sorted@[p0] == k);
                    } else {
                        assert(sorted@[p0 + 1] == k);
                    }
                }
            }
            assert forall|p: int, q: int| 0 <= p < q < sorted@.len() implies prec(
                counts@,
                sorted@[p] as int,
                sorted@[q] as int,
            ) by {
                let po = pos as int;
                if q < po {
                    assert(sorted@[p] == old_sorted[p] && sorted@[q] == old_sorted[q]);
                } else if p < po && q == po {
                    assert(sorted@[p] == old_sorted[p]);
                    assert(prec(counts@, old_sorted[p] as int, letter as int));
                } else if p < po && q > po {
                    assert(sorted@[p] == old_sorted[p] && sorted@[q] == old_sorted[q - 1]);
                    if q - 1 == po {
                        assert(prec(counts@, old_sorted[p] as int, letter as int));
                        assert(prec(counts@, letter as int, old_sorted[po] as int));
                    }
                } else if p == po {
                    assert(sorted@[q] == old_sorted[q - 1]);
                    assert(prec(counts@, letter as int, old_sorted[po] as int));
                    if q - 1 > po {
                        assert(prec(counts@, old_sorted[po] as int, old_sorted[q - 1] as int));
                    }
                } else {
                    assert(sorted@[p] == old_sorted[p - 1] && sorted@[q] == old_sorted[q - 1]);
                }
            }
        }
        letter = letter + 1;
    }
    // Rotate the two rarest letters (sorted positions 24 and 25) to the front.
    let mut order: Vec<u8> = Vec::new();
    order.push(sorted[24]);
    order.push(sorted[25]);
    let mut p: usize = 0;
    while p < 24
        invariant
            p <= 24,
            sorted@.len() == 26,
            order@.len() == p + 2,
            order@[0] == sorted@[24],
            order@[1] == sorted@[25],
            forall|q: int| 2 <= q < order@.len() ==> order@[q] == sorted@[q - 2],
        decreases 24 - p,
    {
        order.push(sorted[p]);
        p = p + 1;
    }
    proof {
        assert forall|k: int| 0 <= k < 26 implies appears(order@, k) by {
            assert(appears(sorted@, k));
            let p0 = choose|p0: int| 0 <= p0 < 26 && sorted@[p0] == k;
            if p0 == 24 {
                assert(order@[0] == k);
            } else if p0 == 25 {
                assert(order@[1] == k);
            } else {
                assert(order@[p0 + 2] == k);
            }
        }
        assert forall|a: int, b: int| 0 <= a < b < 26 implies sorted@[a] != sorted@[b] by {
            assert(prec(counts@, sorted@[a] as int, sorted@[b] as int));
        }
        assert forall|p0: int, q0: int| 0 <= p0 < q0 < 26 implies order@[p0] != order@[q0] by {
            let sp = if p0 == 0 { 24int } else if p0 == 1 { 25int } else { p0 - 2 };
            let sq = if q0 == 0 { 24int } else if q0 == 1 { 25int } else { q0 - 2 };
            assert(order@[p0] == sorted@[sp]);
            assert(order@[q0] == sorted@[sq]);
            assert(sp != sq);
        }
    }
    order
}

/// The weight table is a bijection: every letter owns exactly one bit, a
/// single power of two, and no two letters share one.
pub proof fn lemma_weights_bijective(order: Seq<u8>, weights: Seq<u32>)
    requires
        order.len() == 26,
        weights.len() == 26,
        forall|p: int| 0 <= p < 26 ==> #[trigger] order[p] < 26,
        forall|p: int, q: int| 0 <= p < q < 26 ==> order[p] != order[q],
        forall|k: int| 0 <= k < 26 ==> appears(order, k),
        forall|p: int| 0 <= p < 26 ==> #[trigger] weights[order[p] as int] == (1u32 << 25) >> (
        p as u32),
    ensures
        forall|k: int| 0 <= k < 26 ==> crate::masks::pop(#[trigger] weights[k]) == 1,
        forall|k1: int, k2: int|
            0 <= k1 < 26 && 0 <= k2 < 26 && k1 != k2 ==> weights[k1] != weights[k2],
{
    assert forall|k: int| 0 <= k < 26 implies crate::masks::pop(#[trigger] weights[k]) == 1 by {
        assert(appears(order, k));
        let p = choose|p: int| 0 <= p < order.len() && order[p] == k;
        assert(weights[k] == (1u32 << 25) >> (p as u32));
        lemma_single_bit_pop((p as u32));
    }
    assert forall|k1: int, k2: int|
        0 <= k1 < 26 && 0 <= k2 < 26 && k1 != k2 implies weights[k1] != weights[k2] by {
        assert(appears(order, k1));
        assert(appears(order, k2));
        let p1 = choose|p: int| 0 <= p < order.len() && order[p] == k1;
        let p2 = choose|p: int| 0 <= p < order.len() && order[p] == k2;
        assert(p1 != p2);
        assert(forall|a: u32, b: u32|
            a < 26 && b < 26 && a != b ==> ((1u32 << 25) >> a) != ((1u32 << 25) >> b))
            by (bit_vector);
    }
}

proof fn lemma_single_bit_pop(p: u32)
    requires
        p < 26,
    ensures
        crate::masks::pop((1u32 << 25) >> p) == 1,
{
    assert((1u32 << 25) >> p == 1u32 << ((25 - p) as u32)) by (bit_vector)
        requires p < 26;
    lemma_pop_power((25 - p) as u32);
}

proof fn lemma_pop_power(k: u32)
    requires
        k < 32,
    ensures
        crate::masks::pop(1u32 << k) == 1,
    decreases k,
{
    if k == 0 {
        assert(1u32 << 0u32 == 1 && 1u32 & 1 == 1 && 1u32 >> 1 == 0) by (bit_vector);
        assert(crate::masks::pop(0u32) == 0);
        assert(crate::masks::pop(1u32) == 1);
    } else {
        lemma_pop_power((k - 1) as u32);
        let v = 1u32 << k;
        assert(v & 1 == 0 && v >> 1 == 1u32 << ((k - 1) as u32) && v != 0) by (bit_vector)
            requires 1 <= k < 32 && v == 1u32 << k;
        assert(crate::masks::pop(v) == (v & 1) + crate::masks::pop(v >> 1));
    }
}

/// Compares two letters in rank order (frequency descending, then
/// alphabet position ascending).
fn precedes(counts: &Vec<u64>, a: u8, b: u8) -> (r: bool)
    requires
        counts@.len() == 26,
        a < 26,
        b < 26,
    ensures
        r == prec(counts@, a as int, b as int),
{
    let ca = counts[a as usize];
    let cb = counts[b as usize];
    ca > cb || (ca == cb && a < b)
}

/// Builds the weight table: the letter of rank `p` owns the single mask bit
/// `1 << (25 - p)`, so rarer letters own higher-order bits.
#[verifier::loop_isolation(false)]
pub fn letter_weights(order: &Vec<u8>) -> (weights: Vec<u32>)
    requires
        order@.len() == 26,
        forall|p: int| 0 <= p < 26 ==> #[trigger] order@[p] < 26,
        forall|p: int, q: int| 0 <= p < q < 26 ==> order@[p] != order@[q],
    ensures
        weights@.len() == 26,
        forall|p: int|
            0 <= p < 26 ==> #[trigger] weights@[order@[p] as int] == (1u32 << 25) >> (p as u32),
{
    let mut weights: Vec<u32> = vec![0u32; 26];
    let mut p: usize = 0;
    while p < 26
        invariant
            p <= 26,
            weights@.len() == 26,
            forall|q: int|
                0 <= q < p ==> #[trigger] weights@[order@[q] as int] == (1u32 << 25) >> (q as u32),
        decreases 26 - p,
    {
        weights.set(order[p] as usize, 1u32 << 25 >> (p as u32));
        p = p + 1;
    }
    weights
}

} // verus!
