//! Enumerative coding of bit sequences of known composition: a sequence with a
//! fixed number of set and unset bits is mapped to its lexicographic rank among
//! all sequences of that composition, and back.
use vstd::prelude::*;

pub mod binomial;
pub mod binomial_cache;
pub mod bits;
pub mod laws;
pub mod natural;
pub mod permutation;
pub mod streaming;

use crate::binomial_cache::BinomialCache;
use crate::bits::{Bits, MAX_BITS};
use crate::laws::{lemma_rank_split, lemma_unrank_split};
use crate::natural::Natural;
use crate::streaming::{
    lemma_unrank_counts, rank_of, rank_state, unrank_bits, unrank_state, BitRanker, BitUnranker,
};

verus! {

/// How many bits the chunked drivers hand over at a time.
pub const CHUNK_BITS: usize = 64;

/// The rank of `bits`, fed to the encoder in chunks of `CHUNK_BITS`.
pub fn stream_rank(bits: &Bits, ones: u64, zeros: u64, cache: &mut BinomialCache) -> (r: Natural)
    requires
        old(cache).wf(),
        ones + zeros <= u64::MAX,
    ensures
        final(cache).wf(),
        r@ == rank_of(ones as nat, zeros as nat, bits@),
{
    let mut ranker = BitRanker::new(ones, zeros);
    let mut chunk = Bits::new();
    let mut i: usize = 0;
    while i < bits.len()
        invariant
            i <= bits@.len(),
            chunk@.len() <= i,
            chunk@.len() < CHUNK_BITS,
            chunk@ == bits@.subrange(i - chunk@.len(), i as int),
            ranker.wf(),
            cache.wf(),
            ranker@ == rank_state(ones as nat, zeros as nat, bits@.subrange(0, i - chunk@.len())),
        decreases bits@.len() - i,
    {
        chunk.push(bits.get(i));
        i = i + 1;
        assert(chunk@ =~= bits@.subrange(i - chunk@.len(), i as int));
        if chunk.len() == CHUNK_BITS {
            proof {
                let start = bits@.subrange(0, i - chunk@.len());
                lemma_rank_split(ones as nat, zeros as nat, start, chunk@);
                assert(start + chunk@ =~= bits@.subrange(0, i as int));
            }
            ranker.process_chunk(cache, &chunk);
            chunk = Bits::new();
        }
    }
    if chunk.len() > 0 {
        proof {
            let start = bits@.subrange(0, i - chunk@.len());
            lemma_rank_split(ones as nat, zeros as nat, start, chunk@);
            assert(start + chunk@ =~= bits@.subrange(0, i as int));
        }
        ranker.process_chunk(cache, &chunk);
    }
    assert(bits@.subrange(0, bits@.len() as int) =~= bits@);
    ranker.finalize()
}

/// The sequence of rank `index`, drawn from the decoder in chunks of
/// `CHUNK_BITS` until it comes back empty.
pub fn stream_unrank(index: Natural, ones: u64, zeros: u64, cache: &mut BinomialCache) -> (r: Bits)
    requires
        old(cache).wf(),
        ones + zeros <= MAX_BITS,
    ensures
        final(cache).wf(),
        r@ == unrank_bits((index@, ones as nat, zeros as nat), (ones + zeros) as nat),
{
    proof {
        lemma_unrank_counts((index@, ones as nat, zeros as nat), 0);
    }
    let ghost start = (index@, ones as nat, zeros as nat);
    let ghost index_value = index@;
    let mut unranker = BitUnranker::new(index, ones, zeros);
    let mut result = Bits::new();
    loop
        invariant
            start.1 == ones,
            start.2 == zeros,
            start.0 == index_value,
            ones + zeros <= MAX_BITS,
            result@.len() <= ones + zeros,
            unranker.wf(),
            cache.wf(),
            result@ == unrank_bits(start, result@.len()),
            unranker@ == unrank_state(start, result@.len()),
            unranker@.1 + unranker@.2 == ones + zeros - result@.len(),
        ensures
            result@.len() == ones + zeros,
            result@ == unrank_bits(start, result@.len()),
            start == (index_value, ones as nat, zeros as nat),
        decreases ones + zeros - result@.len(),
    {
        let ghost rem = unranker@.1 + unranker@.2;
        let chunk = unranker.next_chunk(cache, CHUNK_BITS);
        assert(chunk@.len() == if CHUNK_BITS <= rem { CHUNK_BITS as nat } else { rem });
        if chunk.len() == 0 {
            assert(rem == 0);
            break;
        }
        proof {
            lemma_unrank_split(start, result@.len(), chunk@.len());
            lemma_unrank_counts(start, result@.len() + chunk@.len());
        }
        let ghost before = result@;
        let mut j: usize = 0;
        while j < chunk.len()
            invariant
                j <= chunk@.len(),
                before.len() + chunk@.len() <= ones + zeros,
                ones + zeros <= MAX_BITS,
                result@ == before + chunk@.subrange(0, j as int),
            decreases chunk@.len() - j,
        {
            result.push(chunk.get(j));
            j = j + 1;
            assert(result@ =~= before + chunk@.subrange(0, j as int));
        }
        assert(chunk@.subrange(0, chunk@.len() as int) =~= chunk@);
    }
    result
}

} // verus!
