//! What holds of rank and unrank as a whole: chunk boundaries do not matter,
//! ranks stay below the number of sequences, and unrank inverts rank.
use crate::binomial::{binom, lemma_binom_diagonal};
use crate::streaming::{rank_of, rank_state, unrank_bits, unrank_state, unrank_step};
use vstd::prelude::*;

verus! {

/// The number of set bits in a sequence.
pub open spec fn count_ones(bits: Seq<bool>) -> nat
    decreases bits.len(),
{
    if bits.len() == 0 {
        0
    } else {
        (if bits[0] { 1nat } else { 0nat }) + count_ones(bits.drop_first())
    }
}

/// Whether `bits` has exactly `ones` set and `zeros` unset bits.
pub open spec fn has_composition(bits: Seq<bool>, ones: nat, zeros: nat) -> bool {
    bits.len() == ones + zeros && count_ones(bits) == ones
}

/// A sequence holds no more set bits than bits.
pub proof fn lemma_count_ones_bound(bits: Seq<bool>)
    ensures
        count_ones(bits) <= bits.len(),
    decreases bits.len(),
{
    if bits.len() > 0 {
        lemma_count_ones_bound(bits.drop_first());
    }
}

/// Reading `a` and then `b` leaves the encoder where reading `a + b` does:
/// ranks of consecutive chunks add up, whatever the chunk boundaries.
pub proof fn lemma_rank_split(ones: nat, zeros: nat, a: Seq<bool>, b: Seq<bool>)
    ensures
        ({
            let s = rank_state(ones, zeros, a);
            let t = rank_state(s.1, s.2, b);
            rank_state(ones, zeros, a + b) == (s.0 + t.0, t.1, t.2)
        }),
    decreases b.len(),
{
    if b.len() == 0 {
        assert(a + b =~= a);
    } else {
        assert((a + b).drop_last() =~= a + b.drop_last());
        assert((a + b).last() == b.last());
        lemma_rank_split(ones, zeros, a, b.drop_last());
    }
}

/// Emitting `a` bits and then `b` more from where the decoder stopped gives the
/// same bits as emitting `a + b` at once: chunk sizes do not matter.
pub proof fn lemma_unrank_split(s: (nat, nat, nat), a: nat, b: nat)
    ensures
        unrank_state(s, a + b) == unrank_state(unrank_state(s, a), b),
        unrank_bits(s, a + b) == unrank_bits(s, a) + unrank_bits(unrank_state(s, a), b),
    decreases b,
{
    if b == 0 {
        assert(unrank_bits(s, a) + Seq::<bool>::empty() =~= unrank_bits(s, a));
    } else {
        lemma_unrank_split(s, a, (b - 1) as nat);
        let t = unrank_state(s, a);
        assert((a + b - 1) as nat == a + (b - 1) as nat);
        assert(unrank_bits(s, a + b) =~= unrank_bits(s, a) + unrank_bits(t, b));
    }
}

/// With no set bits, or no unset bits, to place, every sequence has rank 0.
pub proof fn lemma_rank_degenerate(ones: nat, zeros: nat, bits: Seq<bool>)
    requires
        ones == 0 || zeros == 0,
    ensures
        rank_state(ones, zeros, bits) == (0nat, ones, zeros),
    decreases bits.len(),
{
    if bits.len() > 0 {
        lemma_rank_degenerate(ones, zeros, bits.drop_last());
    }
}

/// Rank 0 with no set bits decodes to all unset bits; with no unset bits, to
/// all set bits.
pub proof fn lemma_unrank_degenerate(ones: nat, zeros: nat)
    requires
        ones == 0 || zeros == 0,
    ensures
        ones == 0 ==> unrank_bits((0nat, ones, zeros), zeros) == Seq::new(zeros, |i: int| false),
        zeros == 0 ==> unrank_bits((0nat, ones, zeros), ones) == Seq::new(ones, |i: int| true),
{
    if ones == 0 {
        lemma_unrank_all_unset(zeros, zeros);
    } else {
        lemma_unrank_all_set(ones, ones);
    }
}

proof fn lemma_unrank_all_unset(zeros: nat, len: nat)
    requires
        len <= zeros,
    ensures
        unrank_state((0nat, 0nat, zeros), len) == (0nat, 0nat, (zeros - len) as nat),
        unrank_bits((0nat, 0nat, zeros), len) == Seq::new(len, |i: int| false),
    decreases len,
{
    if len > 0 {
        lemma_unrank_all_unset(zeros, (len - 1) as nat);
        assert(unrank_bits((0nat, 0nat, zeros), len) =~= Seq::new(len, |i: int| false));
    }
}

proof fn lemma_unrank_all_set(ones: nat, len: nat)
    requires
        len <= ones,
    ensures
        unrank_state((0nat, ones, 0nat), len) == (0nat, (ones - len) as nat, 0nat),
        unrank_bits((0nat, ones, 0nat), len) == Seq::new(len, |i: int| true),
    decreases len,
{
    if len > 0 {
        lemma_unrank_all_set(ones, (len - 1) as nat);
        assert(unrank_bits((0nat, ones, 0nat), len) =~= Seq::new(len, |i: int| true));
    }
}

/// The encoder's first step: how a leading bit moves the state.
proof fn lemma_rank_front(ones: nat, zeros: nat, bits: Seq<bool>)
    requires
        bits.len() > 0,
        ones > 0,
        zeros > 0,
    ensures
        bits[0] ==> rank_state(ones, zeros, bits) == ({
            let t = rank_state((ones - 1) as nat, zeros, bits.drop_first());
            (binom((ones + zeros - 1) as nat, ones) + t.0, t.1, t.2)
        }),
        !bits[0] ==> rank_state(ones, zeros, bits) == rank_state(ones, (zeros - 1) as nat, bits.drop_first()),
{
    let head = bits.subrange(0, 1);
    assert(head.drop_last() =~= Seq::<bool>::empty());
    assert(rank_state(ones, zeros, head.drop_last()) == (0nat, ones, zeros));
    assert(head.last() == bits[0]);
    assert(head + bits.drop_first() =~= bits);
    lemma_rank_split(ones, zeros, head, bits.drop_first());
}

/// Every rank of a sequence of `ones` set and `zeros` unset bits lies below
/// C(ones + zeros, ones), the number of such sequences.
pub proof fn lemma_rank_bound(ones: nat, zeros: nat, bits: Seq<bool>)
    requires
        has_composition(bits, ones, zeros),
    ensures
        rank_of(ones, zeros, bits) < binom(ones + zeros, ones),
    decreases bits.len(),
{
    if ones == 0 || zeros == 0 {
        lemma_rank_degenerate(ones, zeros, bits);
        if ones == 0 {
            assert(binom(zeros, 0) == 1);
        } else {
            lemma_binom_diagonal(ones);
        }
    } else {
        lemma_rank_front(ones, zeros, bits);
        let rest = bits.drop_first();
        let n = (ones + zeros - 1) as nat;
        assert(binom(ones + zeros, ones) == binom(n, (ones - 1) as nat) + binom(n, ones));
        if bits[0] {
            lemma_rank_bound((ones - 1) as nat, zeros, rest);
        } else {
            lemma_rank_bound(ones, (zeros - 1) as nat, rest);
        }
    }
}

/// Unrank inverts rank: decoding the rank of a sequence with the same
/// composition gives the sequence back.
#[verifier::rlimit(40)]
pub proof fn lemma_round_trip(ones: nat, zeros: nat, bits: Seq<bool>)
    requires
        has_composition(bits, ones, zeros),
    ensures
        unrank_bits((rank_of(ones, zeros, bits), ones, zeros), ones + zeros) == bits,
    decreases bits.len(),
{
    if bits.len() == 0 {
        assert(bits =~= Seq::<bool>::empty());
    } else {
        let rest = bits.drop_first();
        let s = (rank_of(ones, zeros, bits), ones, zeros);
        let len = (ones + zeros - 1) as nat;
        lemma_unrank_split(s, 1, len);
        assert(unrank_state(s, 0) == s);
        assert(unrank_bits(s, 0) =~= Seq::<bool>::empty());
        assert(unrank_bits(s, 1) =~= seq![unrank_step(s).0]);
        assert(unrank_state(s, 1) == unrank_step(s).1);
        lemma_count_ones_bound(rest);
        let next = unrank_step(s).1;
        if ones == 0 || zeros == 0 {
            lemma_rank_degenerate(ones, zeros, bits);
            if ones == 0 {
                assert(!bits[0]);
                lemma_rank_degenerate(ones, (zeros - 1) as nat, rest);
                lemma_round_trip(ones, (zeros - 1) as nat, rest);
            } else {
                assert(bits[0]);
                lemma_rank_degenerate((ones - 1) as nat, zeros, rest);
                lemma_round_trip((ones - 1) as nat, zeros, rest);
            }
        } else {
            lemma_rank_front(ones, zeros, bits);
            if bits[0] {
                lemma_round_trip((ones - 1) as nat, zeros, rest);
                assert(next == (rank_of((ones - 1) as nat, zeros, rest), (ones - 1) as nat, zeros));
            } else {
                lemma_rank_bound(ones, (zeros - 1) as nat, rest);
                lemma_round_trip(ones, (zeros - 1) as nat, rest);
                assert(next == (rank_of(ones, (zeros - 1) as nat, rest), ones, (zeros - 1) as nat));
            }
        }
        assert(seq![unrank_step(s).0] + rest =~= bits);
    }
}

/// A set bit somewhere means at least one set bit; an unset bit, at least one
/// bit that is not set.
proof fn lemma_count_ones_at(bits: Seq<bool>, j: int)
    requires
        0 <= j < bits.len(),
    ensures
        bits[j] ==> count_ones(bits) >= 1,
        !bits[j] ==> count_ones(bits) + 1 <= bits.len(),
    decreases j,
{
    lemma_count_ones_bound(bits.drop_first());
    if j > 0 {
        lemma_count_ones_at(bits.drop_first(), j - 1);
    }
}

/// Ranks follow lexicographic order: of two sequences of the same composition
/// that agree before position `i`, where the first has an unset bit and the
/// second a set one, the first has the smaller rank.
pub proof fn lemma_rank_monotonic(ones: nat, zeros: nat, earlier: Seq<bool>, later: Seq<bool>, i: int)
    requires
        has_composition(earlier, ones, zeros),
        has_composition(later, ones, zeros),
        0 <= i < earlier.len(),
        forall|j: int| 0 <= j < i ==> earlier[j] == later[j],
        !earlier[i],
        later[i],
    ensures
        rank_of(ones, zeros, earlier) < rank_of(ones, zeros, later),
    decreases i,
{
    lemma_count_ones_at(earlier, i);
    lemma_count_ones_at(later, i);
    lemma_rank_front(ones, zeros, earlier);
    lemma_rank_front(ones, zeros, later);
    let a = earlier.drop_first();
    let b = later.drop_first();
    if i == 0 {
        lemma_rank_bound(ones, (zeros - 1) as nat, a);
    } else {
        assert(earlier[0] == later[0]);
        assert forall|j: int| 0 <= j < i - 1 implies a[j] == b[j] by {
            assert(earlier[j + 1] == later[j + 1]);
        }
        if earlier[0] {
            lemma_rank_monotonic((ones - 1) as nat, zeros, a, b, i - 1);
        } else {
            lemma_rank_monotonic(ones, (zeros - 1) as nat, a, b, i - 1);
        }
    }
}

} // verus!
