//! Search for sets of five five-letter words whose letters are mutually
//! disjoint, covering 25 of the 26 alphabet letters.
//!
//! The pipeline: a corpus of lowercase words is scanned for letter
//! frequencies ([`letters`]), each word is encoded as a 26-bit letter mask
//! ([`words`]), the masks are sorted, deduplicated and split
//! ([`candidates`]), a skip table of "first non-colliding index" entries is
//! built ([`skip`]), and the pruned five-deep enumeration walks it
//! ([`search`]), optionally partitioned over workers ([`partition`]).
//! Solutions are rendered back to text by [`decode`].

use vstd::prelude::*;

pub mod candidates;
pub mod decode;
pub mod engine;
pub mod letters;
pub mod masks;
pub mod partition;
pub mod search;
pub mod skip;
pub mod timer;
pub mod words;

verus! {

} // verus!
