//! Streaming rank and unrank: bits go in, or come out, a chunk at a time, and
//! only the remaining counts and the running number persist between calls.
use crate::binomial::binom;
use crate::binomial_cache::BinomialCache;
use crate::bits::{Bits, MAX_BITS};
use crate::natural::Natural;
use vstd::prelude::*;

verus! {

/// The encoder's state after reading `bits` from a start of `ones` set and
/// `zeros` unset bits to place: (rank so far, set bits left, unset bits left).
/// Once either count is zero the rest of the sequence is forced, and further
/// bits change nothing.
pub open spec fn rank_state(ones: nat, zeros: nat, bits: Seq<bool>) -> (nat, nat, nat)
    decreases bits.len(),
{
    if bits.len() == 0 {
        (0, ones, zeros)
    } else {
        let s = rank_state(ones, zeros, bits.drop_last());
        if s.1 == 0 || s.2 == 0 {
            s
        } else if bits.last() {
            (s.0 + binom((s.1 + s.2 - 1) as nat, s.1), (s.1 - 1) as nat, s.2)
        } else {
            (s.0, s.1, (s.2 - 1) as nat)
        }
    }
}

/// The rank of `bits` among the sequences of `ones` set and `zeros` unset bits.
pub open spec fn rank_of(ones: nat, zeros: nat, bits: Seq<bool>) -> nat {
    rank_state(ones, zeros, bits).0
}

/// An encoder state `(rank so far, ones left, zeros left)` after reading `bits`.
pub open spec fn rank_advance(s: (nat, nat, nat), bits: Seq<bool>) -> (nat, nat, nat) {
    let t = rank_state(s.1, s.2, bits);
    (s.0 + t.0, t.1, t.2)
}

/// One step of the decoder from `(index left, ones left, zeros left)`: the bit
/// it emits and the state after it. Past the end it emits unset bits.
pub open spec fn unrank_step(s: (nat, nat, nat)) -> (bool, (nat, nat, nat)) {
    let (idx, o, z) = s;
    if o == 0 {
        (false, (idx, 0, if z > 0 { (z - 1) as nat } else { 0 }))
    } else if z == 0 {
        (true, (idx, (o - 1) as nat, 0))
    } else {
        let c = binom((o + z - 1) as nat, o);
        if c > idx {
            (false, (idx, o, (z - 1) as nat))
        } else {
            (true, ((idx - c) as nat, (o - 1) as nat, z))
        }
    }
}

/// The decoder's state after `len` steps from `s`.
pub open spec fn unrank_state(s: (nat, nat, nat), len: nat) -> (nat, nat, nat)
    decreases len,
{
    if len == 0 {
        s
    } else {
        unrank_step(unrank_state(s, (len - 1) as nat)).1
    }
}

/// The first `len` bits that the decoder emits from `s`.
pub open spec fn unrank_bits(s: (nat, nat, nat), len: nat) -> Seq<bool>
    decreases len,
{
    if len == 0 {
        Seq::empty()
    } else {
        unrank_bits(s, (len - 1) as nat).push(unrank_step(unrank_state(s, (len - 1) as nat)).0)
    }
}

/// Each decoder step uses up one bit of a composition that is not used up.
pub proof fn lemma_unrank_counts(s: (nat, nat, nat), len: nat)
    requires
        len <= s.1 + s.2,
    ensures
        unrank_state(s, len).1 + unrank_state(s, len).2 == s.1 + s.2 - len,
        unrank_state(s, len).1 <= s.1,
    decreases len,
{
    if len > 0 {
        lemma_unrank_counts(s, (len - 1) as nat);
    }
}

/// Encodes a sequence handed over in chunks.
pub struct BitRanker {
    total_ones: u64,
    total_zeros: u64,
    remaining_ones: u64,
    remaining_zeros: u64,
    current_index: Natural,
}

impl View for BitRanker {
    type V = (nat, nat, nat);

    /// (rank so far, set bits left, unset bits left)
    closed spec fn view(&self) -> (nat, nat, nat) {
        (self.current_index@, self.remaining_ones as nat, self.remaining_zeros as nat)
    }
}

impl BitRanker {
    /// The remaining counts fit the machine word together.
    pub closed spec fn wf(&self) -> bool {
        self.remaining_ones + self.remaining_zeros <= u64::MAX
    }

    /// An encoder for sequences of `total_ones` set and `total_zeros` unset bits.
    pub fn new(total_ones: u64, total_zeros: u64) -> (r: BitRanker)
        requires
            total_ones + total_zeros <= u64::MAX,
        ensures
            r.wf(),
            r@ == (0nat, total_ones as nat, total_zeros as nat),
    {
        BitRanker {
            total_ones,
            total_zeros,
            remaining_ones: total_ones,
            remaining_zeros: total_zeros,
            current_index: Natural::zero(),
        }
    }

    /// Reads the next chunk of the sequence. Once either remaining count is
    /// zero the rest is forced: further bits, including any beyond the declared
    /// composition, are ignored rather than refused.
    pub fn process_chunk(&mut self, cache: &mut BinomialCache, chunk: &Bits)
        requires
            old(self).wf(),
            old(cache).wf(),
        ensures
            final(self).wf(),
            final(cache).wf(),
            final(self)@ == rank_advance(old(self)@, chunk@),
    {
        let ghost start = self@;
        let mut i: usize = 0;
        while i < chunk.len()
            invariant
                i <= chunk@.len(),
                self.wf(),
                cache.wf(),
                self@ == rank_advance(start, chunk@.subrange(0, i as int)),
            decreases chunk@.len() - i,
        {
            let ghost prefix = chunk@.subrange(0, i as int);
            let ghost next = chunk@.subrange(0, i + 1);
            assert(next.drop_last() =~= prefix);
            if self.remaining_ones != 0 && self.remaining_zeros != 0 {
                if chunk.get(i) {
                    let n: u64 = self.remaining_ones - 1 + self.remaining_zeros;
                    let c = cache.get(n, self.remaining_ones);
                    self.current_index = self.current_index.plus(&c);
                    self.remaining_ones = self.remaining_ones - 1;
                } else {
                    self.remaining_zeros = self.remaining_zeros - 1;
                }
            }
            i = i + 1;
        }
        assert(chunk@.subrange(0, chunk@.len() as int) =~= chunk@);
    }

    /// The rank of the sequence read.
    pub fn finalize(self) -> (r: Natural)
        ensures
            r@ == self@.0,
    {
        self.current_index
    }
}

/// Decodes a rank into its sequence, a chunk at a time.
pub struct BitUnranker {
    remaining_index: Natural,
    remaining_ones: u64,
    remaining_zeros: u64,
}

impl View for BitUnranker {
    type V = (nat, nat, nat);

    /// (index left, set bits left, unset bits left)
    closed spec fn view(&self) -> (nat, nat, nat) {
        (self.remaining_index@, self.remaining_ones as nat, self.remaining_zeros as nat)
    }
}

impl BitUnranker {
    /// The remaining bits fit in one bit container.
    pub closed spec fn wf(&self) -> bool {
        self.remaining_ones + self.remaining_zeros <= MAX_BITS
    }

    /// A decoder of `index` among sequences of `total_ones` set and
    /// `total_zeros` unset bits.
    pub fn new(index: Natural, total_ones: u64, total_zeros: u64) -> (r: BitUnranker)
        requires
            total_ones + total_zeros <= MAX_BITS,
        ensures
            r.wf(),
            r@ == (index@, total_ones as nat, total_zeros as nat),
    {
        BitUnranker { remaining_index: index, remaining_ones: total_ones, remaining_zeros: total_zeros }
    }

    /// The next bits of the sequence, at most `chunk_size` of them; empty once
    /// the sequence is exhausted.
    pub fn next_chunk(&mut self, cache: &mut BinomialCache, chunk_size: usize) -> (r: Bits)
        requires
            old(self).wf(),
            old(cache).wf(),
        ensures
            final(self).wf(),
            final(cache).wf(),
            r@.len() == if chunk_size <= old(self)@.1 + old(self)@.2 {
                chunk_size as nat
            } else {
                old(self)@.1 + old(self)@.2
            },
            r@ == unrank_bits(old(self)@, r@.len()),
            final(self)@ == unrank_state(old(self)@, r@.len()),
    {
        let total: u64 = self.remaining_ones + self.remaining_zeros;
        let size: usize = if (chunk_size as u64) < total { chunk_size } else { total as usize };
        let ghost start = self@;
        let mut result = Bits::new();
        let mut i: usize = 0;
        while i < size
            invariant
                i <= size,
                size <= start.1 + start.2,
                start.1 + start.2 <= MAX_BITS,
                self.wf(),
                cache.wf(),
                result@.len() == i,
                result@ == unrank_bits(start, i as nat),
                self@ == unrank_state(start, i as nat),
            decreases size - i,
        {
            if self.remaining_ones == 0 {
                result.push(false);
                if self.remaining_zeros > 0 {
                    self.remaining_zeros = self.remaining_zeros - 1;
                }
            } else if self.remaining_zeros == 0 {
                result.push(true);
                self.remaining_ones = self.remaining_ones - 1;
            } else {
                let n: u64 = self.remaining_ones - 1 + self.remaining_zeros;
                let c = cache.get(n, self.remaining_ones);
                if self.remaining_index.less_than(&c) {
                    result.push(false);
                    self.remaining_zeros = self.remaining_zeros - 1;
                } else {
                    result.push(true);
                    self.remaining_index = self.remaining_index.minus(&c);
                    self.remaining_ones = self.remaining_ones - 1;
                }
            }
            i = i + 1;
        }
        result
    }
}

} // verus!
