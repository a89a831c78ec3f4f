//! The assembled pipeline: from a raw corpus to the prepared search
//! structures, and from those to the exact set of solutions.

use vstd::prelude::*;
use crate::candidates::{has_mask, rare_bits};
use crate::letters::{all_lower, rank_order_of, total_chars};
use crate::masks::pop;
use crate::search::{Solution, is_range_solution};
use crate::skip::SkipTable;
use crate::words::{Word, encode_filter, keep};

verus! {

/// Everything the search needs, built once from the corpus: the weight
/// table, the sorted words, the candidate masks, the index map back into
/// the words, the split index, the skip table and the first array.
pub struct Prepared {
    pub weights: Vec<u32>,
    pub words: Vec<Word>,
    pub cooked: Vec<u32>,
    pub indices: Vec<u32>,
    pub split: usize,
    pub skip: SkipTable,
    pub first: Vec<u16>,
    /// The encoded, kept words in corpus order, before sorting.
    pub encoded: Ghost<Seq<Word>>,
}

impl Prepared {
    /// The structures hang together: the candidate masks are the distinct
    /// word masks, strictly descending, each of five bits; the skip table
    /// and first array are correct for them; the split index bounds the
    /// candidates holding a rare-letter bit; the index map leads each
    /// candidate to the first word of its anagram group.
    pub open spec fn wf(self) -> bool {
        &&& self.weights@.len() == 26
        &&& forall|k: int| 0 <= k < 26 ==> pop(#[trigger] self.weights@[k]) == 1
        &&& forall|k: int| 0 <= k < 26 ==> #[trigger] self.weights@[k] < 0x0400_0000
        &&& forall|k1: int, k2: int|
            0 <= k1 < 26 && 0 <= k2 < 26 && k1 != k2 ==> self.weights@[k1] != self.weights@[k2]
        &&& self.skip.inv()
        &&& self.skip.correct(self.cooked@)
        &&& self.first@.len() == self.cooked@.len()
        &&& forall|p: int|
            0 <= p < self.cooked@.len() ==> #[trigger] self.first@[p] as int == self.skip.at(p, p)
        &&& forall|p: int| 0 <= p < self.cooked@.len() ==> pop(#[trigger] self.cooked@[p]) == 5
        &&& forall|p: int| 0 <= p < self.cooked@.len() ==> #[trigger] self.cooked@[p] != 0
        &&& forall|p: int| 0 <= p < self.cooked@.len() ==> #[trigger] self.cooked@[p] < 0x0400_0000
        &&& forall|p: int, q: int|
            0 <= p < q < self.cooked@.len() ==> self.cooked@[p] > self.cooked@[q]
        &&& forall|p: int, q: int|
            0 <= p < q < self.words@.len() ==> self.words@[p].bitset >= self.words@[q].bitset
        &&& self.split <= self.cooked@.len()
        &&& forall|p: int|
            0 <= p < self.split ==> (#[trigger] self.cooked@[p]) & rare_bits() != 0
        &&& (self.split as int) < self.cooked@.len() ==> self.cooked@[self.split as int]
            & rare_bits() == 0
        &&& self.indices@.len() == self.cooked@.len()
        &&& forall|c: int|
            0 <= c < self.cooked@.len() ==> (#[trigger] self.indices@[c] as int)
                < self.words@.len()
        &&& forall|c: int|
            0 <= c < self.cooked@.len() ==> self.words@[#[trigger] self.indices@[c] as int].bitset
                == self.cooked@[c]
        &&& forall|c: int, q: int|
            0 <= c < self.cooked@.len() && 0 <= q < self.indices@[c] as int
                ==> self.words@[q].bitset != self.cooked@[c]
        &&& forall|x: u32|
            self.cooked@.contains(x) <==> has_mask(self.words@, self.words@.len() as int, x)
    }
}

/// Builds every search structure from the corpus: the frequency-derived
/// weights, the encoded, filtered and sorted words, the deduplicated
/// candidate masks, the index map, the split index, the skip table and the
/// first array. The kept words are exactly the encoded five-distinct-letter
/// corpus words, rearranged.
#[verifier::rlimit(60)]
pub fn prepare(corpus: &Vec<String>) -> (r: Prepared)
    requires
        all_lower(corpus@),
        total_chars(corpus@) <= u64::MAX,
        corpus@.len() <= 0xFFFF,
    ensures
        r.wf(),
        crate::letters::weights_of(crate::letters::spec_counts(corpus@), r.weights@),
        r.encoded@.len() == encode_filter(corpus@, r.weights@).len(),
        forall|i: int|
            0 <= i < r.encoded@.len() ==> (#[trigger] r.encoded@[i].name@, r.encoded@[i].bitset)
                == encode_filter(corpus@, r.weights@)[i],
        r.words@.to_multiset() == r.encoded@.to_multiset(),
        forall|b: u32|
            #[trigger] crate::candidates::mask_run(r.words@, b) == crate::candidates::mask_run(
                r.encoded@,
                b,
            ),
{
    let counts = crate::letters::count_letters(corpus);
    let order = crate::letters::rank_letters(&counts);
    let weights = crate::letters::letter_weights(&order);
    proof {
        assert(rank_order_of(crate::letters::spec_counts(corpus@), order@));
        assert(crate::letters::weights_of(crate::letters::spec_counts(corpus@), weights@));
        crate::letters::lemma_weights_bijective(order@, weights@);
        assert forall|k: int| 0 <= k < 26 implies #[trigger] weights@[k] < 0x0400_0000 by {
            assert(crate::letters::appears(order@, k));
            let p = choose|p: int| 0 <= p < 26 && order@[p] == k;
            assert(weights@[order@[p] as int] == (1u32 << 25) >> (p as u32));
            assert(forall|pp: u32| pp < 26 ==> ((1u32 << 25) >> pp) < 0x0400_0000) by (bit_vector);
        }
    }
    let unsorted = crate::words::encode_corpus(corpus, &weights);
    let ghost unsorted_view = unsorted@;
    let words = crate::candidates::sort_words(unsorted);
    let cooked = crate::candidates::dedup_masks(&words);
    proof {
        broadcast use vstd::seq_lib::group_to_multiset_ensures;

        assert forall|x: u32| cooked@.contains(x) implies pop(x) == 5 && x != 0 && x
            < 0x0400_0000 by {
            assert(has_mask(words@, words@.len() as int, x));
            let i = choose|i: int| 0 <= i < words@.len() && words@[i].bitset == x;
            assert(words@.contains(words@[i])) by {
                assert(words@[i] == words@[i]);
            }
            assert(words@.to_multiset().count(words@[i]) > 0);
            assert(unsorted_view.contains(words@[i]));
            let j = choose|j: int| 0 <= j < unsorted_view.len() && unsorted_view[j] == words@[i];
            assert((unsorted_view[j].name@, unsorted_view[j].bitset) == encode_filter(
                corpus@,
                weights@,
            )[j]);
            crate::words::lemma_encode_filter_elems(corpus@, weights@, j);
            assert(keep(unsorted_view[j].name@, weights@));
            crate::words::lemma_encode_bound(unsorted_view[j].name@, weights@);
            assert(pop(x) == 5);
            if x == 0 {
                assert(pop(0u32) == 0);
            }
        }
        assert forall|p: int| 0 <= p < cooked@.len() implies pop(#[trigger] cooked@[p]) == 5
            && cooked@[p] != 0 && cooked@[p] < 0x0400_0000 by {
            assert(cooked@.contains(cooked@[p]));
        }
        crate::words::lemma_encode_filter_len(corpus@, weights@);
        assert(words@.len() <= 0xFFFF);
    }
    proof {
        assert forall|c: int| 0 <= c < cooked@.len() implies has_mask(
            words@,
            words@.len() as int,
            #[trigger] cooked@[c],
        ) by {
            assert(cooked@.contains(cooked@[c]));
        }
    }
    let indices = crate::candidates::index_map(&words, &cooked);
    let split = crate::candidates::split_index(&cooked);
    let skip = crate::skip::build_skip_table(&cooked);
    let first = crate::skip::first_array(&skip);
    Prepared { weights, words, cooked, indices, split, skip, first, encoded: Ghost(unsorted_view) }
}

/// Runs the pruned search over the outer range `[0, split)` and returns
/// exactly the solutions of the whole candidate range: by the split-index
/// argument, no solution starts at or after the split.
pub fn solve(pr: &Prepared) -> (sols: Vec<Solution>)
    requires
        pr.wf(),
    ensures
        forall|s: Solution|
            #[trigger] sols@.contains(s) <==> is_range_solution(
                pr.cooked@,
                pr.cooked@.len() as int,
                s,
            ),
        sols@.no_duplicates(),
        crate::search::lex_sorted(sols@),
{
    let outer = crate::partition::make_range(pr.split);
    let sols = crate::search::search_candidates(&pr.cooked, &pr.skip, &pr.first, &outer);
    proof {
        crate::search::lemma_outer_range(pr.cooked@, outer@, pr.split as int);
        assert forall|s: Solution|
            is_range_solution(pr.cooked@, pr.cooked@.len() as int, s) implies sols@.contains(
            s,
        ) by {
            crate::candidates::lemma_split_complete(pr.cooked@, pr.split as int, s);
        }
    }
    sols
}

/// Runs one worker's share of the search: the solutions whose outermost
/// candidate falls in worker `t`'s interleaved slice of `[0, split)`.
pub fn solve_stride(pr: &Prepared, t: usize, count: usize) -> (sols: Vec<Solution>)
    requires
        pr.wf(),
        1 <= count,
        t < count,
        pr.split + count <= usize::MAX,
    ensures
        crate::partition::worker_exact(
            pr.cooked@,
            pr.split as int,
            count as int,
            t as int,
            sols@,
        ),
        crate::search::lex_sorted(sols@),
{
    let outer = crate::partition::stride_indices(t, count, pr.split);
    let sols = crate::search::search_candidates(&pr.cooked, &pr.skip, &pr.first, &outer);
    proof {
        crate::partition::lemma_stride_outer(
            pr.cooked@,
            outer@,
            pr.split as int,
            count as int,
            t as int,
        );
    }
    sols
}

} // verus!
