//! Whole-sequence rank and unrank.
use crate::binomial_cache::BinomialCache;
use crate::bits::{Bits, MAX_BITS};
use crate::natural::Natural;
use crate::streaming::{rank_of, unrank_bits, BitRanker, BitUnranker};
use vstd::prelude::*;

verus! {

/// The rank of `bits` among the sequences of `ones` set and `zeros` unset bits.
pub fn get_permutation_index(bits: &Bits, ones: u64, zeros: u64, cache: &mut BinomialCache) -> (r:
    Natural)
    requires
        old(cache).wf(),
        ones + zeros <= u64::MAX,
    ensures
        final(cache).wf(),
        r@ == rank_of(ones as nat, zeros as nat, bits@),
{
    let mut ranker = BitRanker::new(ones, zeros);
    ranker.process_chunk(cache, bits);
    ranker.finalize()
}

/// The sequence of `ones` set and `zeros` unset bits whose rank is `index`.
pub fn get_nth_permutation(index: &Natural, ones: u64, zeros: u64, cache: &mut BinomialCache) -> (r: Bits)
    requires
        old(cache).wf(),
        ones + zeros <= MAX_BITS,
    ensures
        final(cache).wf(),
        r@ == unrank_bits((index@, ones as nat, zeros as nat), (ones + zeros) as nat),
{
    let mut unranker = BitUnranker::new(index.copy(), ones, zeros);
    unranker.next_chunk(cache, (ones + zeros) as usize)
}

} // verus!
