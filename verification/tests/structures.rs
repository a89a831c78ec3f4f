//! The building blocks one by one: letter counting and ranking, weights,
//! word encoding, candidate dedup, the skip table against a naive scan,
//! the first array, the split index, and the partitioner's index slices.

use fivewords::candidates::{dedup_masks, index_map, sort_words, split_index};
use fivewords::letters::{alphabet_index, count_letters, letter_weights, rank_letters};
use fivewords::masks::popcount;
use fivewords::partition::{make_range, stride_indices};
use fivewords::skip::{build_skip_table, first_array};
use fivewords::words::{encode_word, Word};

fn unit_weights() -> Vec<u32> {
    (0..26).map(|k| 1u32 << k).collect()
}

#[test]
fn alphabet_index_maps_letters() {
    assert_eq!(alphabet_index('a'), 0);
    assert_eq!(alphabet_index('m'), 12);
    assert_eq!(alphabet_index('z'), 25);
}

#[test]
fn popcount_counts_bits() {
    assert_eq!(popcount(0), 0);
    assert_eq!(popcount(0b11111), 5);
    assert_eq!(popcount(u32::MAX), 32);
    assert_eq!(popcount(0x0200_0001), 2);
}

#[test]
fn count_letters_tallies_occurrences() {
    let corpus = vec!["ab".to_string(), "b".to_string(), "zzz".to_string()];
    let counts = count_letters(&corpus);
    assert_eq!(counts.len(), 26);
    assert_eq!(counts[0], 1);
    assert_eq!(counts[1], 2);
    assert_eq!(counts[25], 3);
    assert_eq!(counts[2], 0);
}

#[test]
fn rank_letters_sorts_and_rotates() {
    // a is the most frequent; every other letter ties at zero and is
    // ordered alphabetically; the two last (x, z after rotation checks) move
    // to the front.
    let mut counts = vec![0u64; 26];
    counts[0] = 5;
    counts[1] = 3;
    counts[2] = 3;
    let order = rank_letters(&counts);
    assert_eq!(order.len(), 26);
    // Unrotated rank order: a, b, c, d, e, ..., z; the two rarest are y, z.
    assert_eq!(order[0], 24);
    assert_eq!(order[1], 25);
    assert_eq!(order[2], 0);
    assert_eq!(order[3], 1);
    assert_eq!(order[4], 2);
    assert_eq!(order[5], 3);
    assert_eq!(order[25], 23);
}

#[test]
fn letter_weights_assigns_descending_bits() {
    let mut counts = vec![0u64; 26];
    counts[0] = 5;
    let order = rank_letters(&counts);
    let weights = letter_weights(&order);
    // The rarest two letters own the two highest bits.
    assert_eq!(weights[24], 1 << 25);
    assert_eq!(weights[25], 1 << 24);
    // The most frequent letter owns the next bit down.
    assert_eq!(weights[0], 1 << 23);
    // One distinct bit per letter.
    let mut seen = 0u32;
    for k in 0..26 {
        assert_eq!(weights[k] & seen, 0);
        assert_eq!(popcount(weights[k]), 1);
        seen |= weights[k];
    }
}

#[test]
fn encode_word_unions_letter_bits() {
    let weights = unit_weights();
    let w = encode_word(&"abcde".to_string(), &weights);
    assert_eq!(w.bitset, 0b11111);
    assert_eq!(w.name, "abcde");
    let anagram = encode_word(&"edcba".to_string(), &weights);
    assert_eq!(anagram.bitset, 0b11111);
    let repeated = encode_word(&"aaaaa".to_string(), &weights);
    assert_eq!(repeated.bitset, 0b1);
}

fn word(name: &str, bitset: u32) -> Word {
    Word { name: name.to_string(), bitset }
}

#[test]
fn sort_words_orders_masks_descending() {
    let words = vec![word("low", 1), word("high", 8), word("mid", 4), word("mid2", 4)];
    let sorted = sort_words(words);
    let masks: Vec<u32> = sorted.iter().map(|w| w.bitset).collect();
    assert_eq!(masks, vec![8, 4, 4, 1]);
    // Stable within the tie.
    assert_eq!(sorted[1].name, "mid");
    assert_eq!(sorted[2].name, "mid2");
}

#[test]
fn dedup_and_index_map_group_anagrams() {
    let words = vec![word("c", 8), word("a", 4), word("b", 4), word("d", 1)];
    let cooked = dedup_masks(&words);
    assert_eq!(cooked, vec![8u32, 4, 1]);
    let indices = index_map(&words, &cooked);
    assert_eq!(indices, vec![0u32, 1, 3]);
}

#[test]
fn skip_table_finds_first_compatible_index() {
    let cooked: Vec<u32> = vec![0b1100, 0b1010, 0b0011, 0b0100, 0b0001];
    let n = cooked.len();
    let t = build_skip_table(&cooked);
    for i in 0..n {
        for j in i..=n {
            let expected = (j..n).find(|&x| cooked[x] & cooked[i] == 0).unwrap_or(n);
            assert_eq!(t.get(i, j), expected, "row {} column {}", i, j);
        }
    }
    let first = first_array(&t);
    assert_eq!(first.len(), n);
    for i in 0..n {
        assert_eq!(first[i] as usize, t.get(i, i));
    }
}

#[test]
fn split_index_bounds_rare_letter_candidates() {
    // Candidates sorted descending; the top two carry bit 25 or 24.
    let cooked: Vec<u32> = vec![1 << 25 | 1, 1 << 24 | 2, 0xFF, 0x0F];
    assert_eq!(split_index(&cooked), 2);
    // No candidate without a rare bit: the split is the whole range.
    let all_rare: Vec<u32> = vec![1 << 25, 1 << 24];
    assert_eq!(split_index(&all_rare), 2);
    // A first candidate without rare bits: the split is empty.
    let none_rare: Vec<u32> = vec![0xFF, 0x0F];
    assert_eq!(split_index(&none_rare), 0);
    let empty: Vec<u32> = vec![];
    assert_eq!(split_index(&empty), 0);
}

#[test]
fn partition_slices_interleave() {
    assert_eq!(make_range(4), vec![0, 1, 2, 3]);
    assert_eq!(make_range(0), Vec::<usize>::new());
    assert_eq!(stride_indices(0, 3, 10), vec![0, 3, 6, 9]);
    assert_eq!(stride_indices(1, 3, 10), vec![1, 4, 7]);
    assert_eq!(stride_indices(2, 3, 10), vec![2, 5, 8]);
    assert_eq!(stride_indices(0, 1, 4), vec![0, 1, 2, 3]);
    assert_eq!(stride_indices(2, 3, 2), Vec::<usize>::new());
}
