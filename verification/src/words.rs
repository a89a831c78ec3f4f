//! Word encoding: a word becomes a 26-bit mask with one bit per distinct
//! letter, using the frequency-derived letter weights. Only words of
//! exactly five distinct letters are kept as search material.

use vstd::prelude::*;
use crate::letters::{is_lower, lower_index, all_lower};
use crate::masks::pop;

verus! {

/// A word: its surface form and its letter mask.
#[derive(Clone)]
pub struct Word {
    pub name: String,
    pub bitset: u32,
}

/// The mask of a word: the union of the weights of its letters.
pub open spec fn spec_encode(w: Seq<char>, weights: Seq<u32>) -> u32
    decreases w.len(),
{
    if w.len() == 0 {
        0
    } else {
        spec_encode(w.drop_last(), weights) | weights[lower_index(w.last())]
    }
}

/// A word is kept when it has exactly five letters, all distinct: five
/// characters whose mask has five set bits.
pub open spec fn keep(w: Seq<char>, weights: Seq<u32>) -> bool {
    w.len() == 5 && pop(spec_encode(w, weights)) == 5
}

/// Surface form and mask of every kept word, in corpus order.
pub open spec fn encode_filter(corpus: Seq<String>, weights: Seq<u32>) -> Seq<(Seq<char>, u32)>
    decreases corpus.len(),
{
    if corpus.len() == 0 {
        Seq::empty()
    } else {
        let rest = encode_filter(corpus.drop_last(), weights);
        let w = corpus.last()@;
        if keep(w, weights) {
            rest.push((w, spec_encode(w, weights)))
        } else {
            rest
        }
    }
}

proof fn lemma_encode_filter_unfold(corpus: Seq<String>, weights: Seq<u32>, i: int)
    requires
        0 <= i < corpus.len(),
    ensures
        encode_filter(corpus.take(i + 1), weights) == if keep(corpus[i]@, weights) {
            encode_filter(corpus.take(i), weights).push(
                (corpus[i]@, spec_encode(corpus[i]@, weights)),
            )
        } else {
            encode_filter(corpus.take(i), weights)
        },
{
    assert(corpus.take(i + 1).drop_last() =~= corpus.take(i));
    assert(corpus.take(i + 1).last() == corpus[i]);
}

proof fn lemma_encode_take_unfold(w: Seq<char>, weights: Seq<u32>, p: int)
    requires
        0 <= p < w.len(),
    ensures
        spec_encode(w.take(p + 1), weights) == spec_encode(w.take(p), weights) | weights[lower_index(
            w[p],
        )],
{
    assert(w.take(p + 1).drop_last() =~= w.take(p));
    assert(w.take(p + 1).last() == w[p]);
}

/// A word mask stays below the top of the 26-bit range when every letter
/// weight does.
pub proof fn lemma_encode_bound(w: Seq<char>, weights: Seq<u32>)
    requires
        weights.len() == 26,
        forall|k: int| 0 <= k < 26 ==> #[trigger] weights[k] < 0x0400_0000,
        forall|p: int| 0 <= p < w.len() ==> is_lower(#[trigger] w[p]),
    ensures
        spec_encode(w, weights) < 0x0400_0000,
    decreases w.len(),
{
    if w.len() == 0 {
    } else {
        lemma_encode_bound(w.drop_last(), weights);
        let a = spec_encode(w.drop_last(), weights);
        let b = weights[lower_index(w.last())];
        assert(a < 0x0400_0000 && b < 0x0400_0000 ==> (a | b) < 0x0400_0000) by (bit_vector);
    }
}

/// Every kept pair of the encoded corpus is a five-letter lowercase word
/// with its own mask.
pub proof fn lemma_encode_filter_elems(corpus: Seq<String>, weights: Seq<u32>, i: int)
    requires
        all_lower(corpus),
        0 <= i < encode_filter(corpus, weights).len(),
    ensures
        encode_filter(corpus, weights)[i].1 == spec_encode(encode_filter(corpus, weights)[i].0, weights),
        keep(encode_filter(corpus, weights)[i].0, weights),
        forall|p: int|
            0 <= p < encode_filter(corpus, weights)[i].0.len() ==> is_lower(
                #[trigger] encode_filter(corpus, weights)[i].0[p],
            ),
    decreases corpus.len(),
{
    if corpus.len() > 0 {
        let rest = encode_filter(corpus.drop_last(), weights);
        assert(all_lower(corpus.drop_last())) by {
            assert forall|w: int, p: int|
                0 <= w < corpus.drop_last().len() && 0 <= p < corpus.drop_last()[w]@.len()
                    implies is_lower(#[trigger] corpus.drop_last()[w]@[p]) by {
                assert(corpus.drop_last()[w] == corpus[w]);
            }
        }
        if i < rest.len() {
            lemma_encode_filter_elems(corpus.drop_last(), weights, i);
        } else {
            assert(keep(corpus.last()@, weights));
            assert(forall|p: int|
                0 <= p < corpus.last()@.len() ==> is_lower(#[trigger] corpus.last()@[p]));
        }
    }
}

/// The encoded corpus never holds more words than the corpus.
pub proof fn lemma_encode_filter_len(corpus: Seq<String>, weights: Seq<u32>)
    ensures
        encode_filter(corpus, weights).len() <= corpus.len(),
    decreases corpus.len(),
{
    if corpus.len() > 0 {
        lemma_encode_filter_len(corpus.drop_last(), weights);
    }
}

/// Encodes one word: the union of its letters' weight bits, keeping the
/// surface form for later decoding.
#[verifier::loop_isolation(false)]
pub fn encode_word(word: &String, weights: &Vec<u32>) -> (w: Word)
    requires
        weights@.len() == 26,
        forall|p: int| 0 <= p < word@.len() ==> is_lower(#[trigger] word@[p]),
    ensures
        w.name@ == word@,
        w.bitset == spec_encode(word@, weights@),
{
    let len = word.as_str().unicode_len();
    let mut bitset: u32 = 0;
    let mut p: usize = 0;
    while p < len
        invariant
            p <= len,
            bitset == spec_encode(word@.take(p as int), weights@),
        decreases len - p,
    {
        let c = word.as_str().get_char(p);
        let idx = crate::letters::alphabet_index(c);
        proof {
            lemma_encode_take_unfold(word@, weights@, p as int);
        }
        bitset = bitset | weights[idx];
        p = p + 1;
    }
    proof {
        assert(word@.take(len as int) =~= word@);
    }
    Word { name: word.clone(), bitset }
}

/// Encodes the whole corpus and keeps only the words with five distinct
/// letters, in corpus order.
#[verifier::loop_isolation(false)]
pub fn encode_corpus(corpus: &Vec<String>, weights: &Vec<u32>) -> (words: Vec<Word>)
    requires
        weights@.len() == 26,
        all_lower(corpus@),
    ensures
        words@.len() == encode_filter(corpus@, weights@).len(),
        forall|i: int|
            0 <= i < words@.len() ==> (#[trigger] words@[i].name@, words@[i].bitset)
                == encode_filter(corpus@, weights@)[i],
{
    let mut words: Vec<Word> = Vec::new();
    let mut wi: usize = 0;
    while wi < corpus.len()
        invariant
            wi <= corpus@.len(),
            words@.len() == encode_filter(corpus@.take(wi as int), weights@).len(),
            forall|i: int|
                0 <= i < words@.len() ==> (#[trigger] words@[i].name@, words@[i].bitset)
                    == encode_filter(corpus@.take(wi as int), weights@)[i],
        decreases corpus@.len() - wi,
    {
        let word = &corpus[wi];
        let encoded = encode_word(word, weights);
        let len = word.as_str().unicode_len();
        proof {
            lemma_encode_filter_unfold(corpus@, weights@, wi as int);
        }
        if len == 5 {
            let ones = crate::masks::popcount(encoded.bitset);
            if ones == 5 {
                words.push(encoded);
            }
        }
        wi = wi + 1;
    }
    proof {
        assert(corpus@.take(corpus@.len() as int) =~= corpus@);
    }
    words
}

} // verus!
