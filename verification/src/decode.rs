//! Decoding solutions back to text: a 26-character visualization of a mask
//! (uppercase letter where the mask holds the letter's bit), the word line
//! for a candidate with its whole anagram group slash-separated, and the
//! block of lines for a full solution.

use vstd::prelude::*;
use crate::words::Word;

verus! {

/// The uppercase letter at alphabet position `k`.
pub open spec fn upper_char(k: int) -> char {
    seq![
        'A', 'B', 'C', 'D', 'E', 'F', 'G', 'H', 'I', 'J', 'K', 'L', 'M', 'N', 'O', 'P', 'Q', 'R',
        'S', 'T', 'U', 'V', 'W', 'X', 'Y', 'Z',
    ][k]
}

/// The 26-character visualization of a mask: for each alphabet position,
/// the uppercase letter when the mask holds that letter's weight bit, else
/// a placeholder dash.
pub open spec fn viz_chars(bitset: u32, weights: Seq<u32>) -> Seq<char> {
    Seq::new(26, |k: int| if bitset & weights[k] != 0 { upper_char(k) } else { '-' })
}

/// The slash-separated tail of an anagram group: every word from position
/// `j` on sharing the given mask, each prefixed by a slash.
pub open spec fn group_names(words: Seq<Word>, j: int, bitset: u32) -> Seq<char>
    decreases words.len() - j,
{
    if j < 0 || j >= words.len() || words[j].bitset != bitset {
        Seq::empty()
    } else {
        seq!['/'] + words[j].name@ + group_names(words, j + 1, bitset)
    }
}

/// One decoded solution line: the mask visualization, a space, and the
/// word at position `i` with the rest of its anagram group.
pub open spec fn decode_one(words: Seq<Word>, weights: Seq<u32>, i: int) -> Seq<char> {
    viz_chars(words[i].bitset, weights) + seq![' '] + words[i].name@ + group_names(
        words,
        i + 1,
        words[i].bitset,
    )
}

/// The decoded lines for a list of word positions, joined by newlines.
pub open spec fn decode_list(indices: Seq<u32>, words: Seq<Word>, weights: Seq<u32>) -> Seq<char>
    decreases indices.len(),
{
    if indices.len() == 0 {
        Seq::empty()
    } else if indices.len() == 1 {
        decode_one(words, weights, indices[0] as int)
    } else {
        decode_list(indices.drop_last(), words, weights) + seq!['\n'] + decode_one(
            words,
            weights,
            indices.last() as int,
        )
    }
}

/// A one-character string holding the uppercase letter at alphabet
/// position `k`.
fn upper_str(k: usize) -> (r: &'static str)
    requires
        k < 26,
    ensures
        r@.len() == 1,
        r@[0] == upper_char(k as int),
{
    let letters = "ABCDEFGHIJKLMNOPQRSTUVWXYZ";
    proof {
        reveal_strlit("ABCDEFGHIJKLMNOPQRSTUVWXYZ");
        assert(letters.is_ascii()) by {
            assert forall|p: int| 0 <= p < letters@.len() implies (letters@[p] as u32) < 128 by {
                assert(letters@[p] as u32 <= 90);
            }
        }
    }
    let r = letters.substring_ascii(k, k + 1);
    proof {
        assert(r@[0] == letters@[k as int]);
        assert(letters@[k as int] == upper_char(k as int));
    }
    r
}

/// Renders a mask as its 26-character visualization.
#[verifier::loop_isolation(false)]
pub fn visualize_word(bitset: u32, weights: &Vec<u32>) -> (r: String)
    requires
        weights@.len() == 26,
    ensures
        r@ == viz_chars(bitset, weights@),
{
    let mut out = String::new();
    let mut k: usize = 0;
    while k < 26
        invariant
            k <= 26,
            out@ =~= viz_chars(bitset, weights@).take(k as int),
        decreases 26 - k,
    {
        if bitset & weights[k] != 0 {
            let piece = upper_str(k);
            out.append(piece);
        } else {
            let dash = "-";
            proof {
                reveal_strlit("-");
            }
            out.append(dash);
        }
        proof {
            assert(out@ =~= viz_chars(bitset, weights@).take(k as int + 1));
        }
        k = k + 1;
    }
    proof {
        assert(viz_chars(bitset, weights@).take(26) =~= viz_chars(bitset, weights@));
    }
    out
}

/// Decodes the candidate at word position `index`: its visualization, then
/// the word and every further word of its anagram group, slash-separated.
pub fn decode_index(index: u32, words: &Vec<Word>, weights: &Vec<u32>) -> (r: String)
    requires
        weights@.len() == 26,
        (index as int) < words@.len(),
    ensures
        r@ == decode_one(words@, weights@, index as int),
{
    let i = index as usize;
    let total = words.len();
    proof {
        assert(i < total);
    }
    let bitset = words[i].bitset;
    let mut out = visualize_word(bitset, weights);
    let space = " ";
    proof {
        reveal_strlit(" ");
    }
    out.append(space);
    out.append(words[i].name.as_str());
    let mut j = i + 1;
    while j < words.len()
        invariant_except_break
            weights@.len() == 26,
            i == index as usize,
            i < words@.len(),
            bitset == words@[i as int].bitset,
            i < j <= words@.len(),
            out@ + group_names(words@, j as int, bitset) =~= decode_one(
                words@,
                weights@,
                index as int,
            ),
        ensures
            out@ + group_names(words@, j as int, bitset) =~= decode_one(
                words@,
                weights@,
                index as int,
            ),
            j >= words@.len() || words@[j as int].bitset != bitset,
        decreases words@.len() - j,
    {
        if words[j].bitset != bitset {
            break ;
        }
        let slash = "/";
        proof {
            reveal_strlit("/");
        }
        out.append(slash);
        out.append(words[j].name.as_str());
        proof {
            assert(group_names(words@, j as int, bitset) == seq!['/'] + words@[j as int].name@
                + group_names(words@, j as int + 1, bitset));
        }
        j = j + 1;
    }
    proof {
        assert(group_names(words@, j as int, bitset) =~= Seq::<char>::empty());
        assert(out@ =~= decode_one(words@, weights@, index as int));
    }
    out
}

/// Decodes a found solution: one line per chosen candidate, joined by
/// newlines.
#[verifier::loop_isolation(false)]
pub fn decode_words(indices: Vec<u32>, words: &Vec<Word>, weights: &Vec<u32>) -> (r: String)
    requires
        weights@.len() == 26,
        forall|p: int| 0 <= p < indices@.len() ==> (#[trigger] indices@[p] as int) < words@.len(),
    ensures
        r@ == decode_list(indices@, words@, weights@),
{
    let mut out = String::new();
    let mut t: usize = 0;
    while t < indices.len()
        invariant
            t <= indices@.len(),
            out@ =~= decode_list(indices@.take(t as int), words@, weights@),
        decreases indices@.len() - t,
    {
        if t > 0 {
            let newline = "\n";
            proof {
                reveal_strlit("\n");
            }
            out.append(newline);
        }
        let line = decode_index(indices[t], words, weights);
        out.append(line.as_str());
        proof {
            let pre = indices@.take(t as int);
            let cur = indices@.take(t as int + 1);
            assert(cur.drop_last() =~= pre);
            assert(cur.last() == indices@[t as int]);
            if t == 0 {
                assert(cur.len() == 1);
                assert(out@ =~= decode_list(cur, words@, weights@));
            } else {
                assert(decode_list(cur, words@, weights@) == decode_list(pre, words@, weights@)
                    + seq!['\n'] + decode_one(words@, weights@, cur.last() as int));
                assert(out@ =~= decode_list(cur, words@, weights@));
            }
        }
        t = t + 1;
    }
    proof {
        assert(indices@.take(indices@.len() as int) =~= indices@);
    }
    out
}

} // verus!
