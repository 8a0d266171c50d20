use bitrank::binomial::binomial_coefficient;
use bitrank::binomial::compute_binomial;
use bitrank::binomial_cache::BinomialCache;
use bitrank::bits::Bits;
use bitrank::natural::Natural;
use bitrank::permutation::{get_nth_permutation, get_permutation_index};
use bitrank::streaming::{BitRanker, BitUnranker};
use bitrank::{stream_rank, stream_unrank};
use rand::seq::SliceRandom;

fn bits_of(v: &[u8]) -> Vec<bool> {
    v.iter().map(|b| *b == 1).collect()
}

fn random_bits(ones: usize, zeros: usize) -> Vec<bool> {
    let mut result = Vec::with_capacity(ones + zeros);
    result.extend_from_slice(&vec![true; ones]);
    result.extend_from_slice(&vec![false; zeros]);
    let mut rng = rand::rng();
    result.shuffle(&mut rng);
    result
}

fn bit_length(n: &Natural) -> u64 {
    match n.digits.last() {
        None => 0,
        Some(top) => 32 * (n.digits.len() as u64 - 1) + (32 - top.leading_zeros() as u64),
    }
}

fn shannon_entropy(values: &[bool]) -> f64 {
    let total = values.len() as f64;
    let ones = values.iter().filter(|b| **b).count();
    let mut entropy = 0.0;
    for count in [ones, values.len() - ones] {
        let probability = count as f64 / total;
        if probability > 0.0 {
            entropy -= probability * probability.log2();
        }
    }
    entropy
}

#[test]
fn test_stream_rank() {
    let mut cache = BinomialCache::new();
    let bits = bits_of(&[1, 0, 1, 1, 0]);
    let result = stream_rank(&Bits::from_bools(&bits), 3, 2, &mut cache);
    assert_eq!(result, Natural::from_u64(6));
}

#[test]
fn test_stream_unrank() {
    let mut cache = BinomialCache::new();
    let length: usize = 1000;
    let ones = rand::random_range(0usize..length);
    let zeros = length - ones;
    let expected = random_bits(ones, zeros);
    let index = stream_rank(&Bits::from_bools(&expected), ones as u64, zeros as u64, &mut cache);
    let result = stream_unrank(index, ones as u64, zeros as u64, &mut cache).to_bools();
    assert_eq!(result, expected);
}

#[test]
fn lib_test_cost() {
    let mut cache = BinomialCache::new();
    let length: usize = 1000;
    let ones = rand::random_range(0usize..length);
    let zeros = length - ones;
    let expected = random_bits(ones, zeros);
    let index = stream_rank(&Bits::from_bools(&expected), ones as u64, zeros as u64, &mut cache);
    let index_bits = bit_length(&index);
    let ones_bits = (ones as u64).count_ones() as u64;
    println!("Cost: {} + {} == {}", index_bits, ones_bits, index_bits + ones_bits);
}

#[test]
fn test_binomial_coefficient() {
    let result = binomial_coefficient(50, 25);
    let expected = Natural::from_u64(126410606437752);
    println!("{:?} {:?}", result, expected);
    assert_eq!(result, expected);
}

#[test]
fn test_get_permutation_index() {
    let mut cache = BinomialCache::new();
    let bits = bits_of(&[1, 0, 1, 1]);
    let result = get_permutation_index(&Bits::from_bools(&bits), 3, 2, &mut cache);
    // the per-bit rule adds C(4, 3) + C(2, 2) + C(1, 1): the same prefix as
    // [1, 0, 1, 1, 0], and the same rank
    assert_eq!(result, Natural::from_u64(6));
}

#[test]
fn test_get_nth_permutation() {
    let mut cache = BinomialCache::new();
    let expected = bits_of(&[1, 0, 1, 1, 1, 1, 0, 1, 1, 1]);
    let ones = expected.iter().filter(|b| **b).count() as u64;
    let zeros = expected.len() as u64 - ones;
    let index = get_permutation_index(&Bits::from_bools(&expected), ones, zeros, &mut cache);
    let result = get_nth_permutation(&index, ones, zeros, &mut cache).to_bools();
    assert_eq!(result, expected);
}

#[test]
fn utils_test_cost() {
    let mut cache = BinomialCache::new();
    let length: usize = 4000;
    let ones = rand::random_range(0usize..length);
    let zeros = length - ones;
    let expected = random_bits(ones, zeros);
    let index = get_permutation_index(&Bits::from_bools(&expected), ones as u64, zeros as u64, &mut cache);
    let index_bits = bit_length(&index);
    let ones_bits = 64 - (ones as u64).leading_zeros() as u64;
    println!("Cost: {} + {} == {}", index_bits, ones_bits, index_bits + ones_bits);
}

#[test]
fn test_bitvec_shannon_entropy() {
    let values = bits_of(&[1, 0, 1, 1]);
    let result = shannon_entropy(&values);
    let expected = 0.8112781244591328;
    assert!((result - expected).abs() < 1e-10);
}

#[test]
fn test_accuracy() {
    let mut cache = BinomialCache::new();
    let length: usize = 8000;
    let ones = rand::random_range(0usize..length);
    let zeros = length - ones;
    let expected = random_bits(ones, zeros);
    let index = get_permutation_index(&Bits::from_bools(&expected), ones as u64, zeros as u64, &mut cache);
    let original_entropy = shannon_entropy(&expected);
    let original_bit_count = expected.len();
    let compressed_bit_count = bit_length(&index) + (64 - (ones as u64).leading_zeros() as u64);
    let expected_bit_count = original_bit_count as f64 * original_entropy;
    let bit_count_difference = compressed_bit_count as f64 - expected_bit_count;
    let optimal_compression_accuracy =
        100.0 - ((bit_count_difference / expected_bit_count) * 100.0).abs();
    println!("Original entropy: {:.2}", original_entropy);
    println!("Original bit count: {:.2}", original_bit_count);
    println!("Compressed bit count: {:.2}", compressed_bit_count);
    println!("Expected bit count: {:.2}", expected_bit_count);
    println!("Bit count difference: {:.2}", bit_count_difference);
    println!("Optimal compression accuracy: {:.2}%", optimal_compression_accuracy);
}

#[test]
fn encode_scenario_five_bits() {
    let mut cache = BinomialCache::new();
    let bits = bits_of(&[1, 0, 1, 1, 0]);
    assert_eq!(get_permutation_index(&Bits::from_bools(&bits), 3, 2, &mut cache), Natural::from_u64(6));
}

#[test]
fn decode_scenario_five_bits() {
    let mut cache = BinomialCache::new();
    let result = get_nth_permutation(&Natural::from_u64(6), 3, 2, &mut cache).to_bools();
    assert_eq!(result, bits_of(&[1, 0, 1, 1, 0]));
    let streamed = stream_unrank(Natural::from_u64(6), 3, 2, &mut cache).to_bools();
    assert_eq!(streamed, bits_of(&[1, 0, 1, 1, 0]));
}

#[test]
fn provider_matches_formula_and_symmetry() {
    let mut cache = BinomialCache::new();
    assert_eq!(cache.get(50, 25), Natural::from_u64(126410606437752));
    assert_eq!(cache.get(5, 2), Natural::from_u64(10));
    assert_eq!(cache.get(5, 7), Natural::zero());
    assert_eq!(cache.get(300, 2), Natural::from_u64(44850));
    assert_eq!(cache.get(300, 298), Natural::from_u64(44850));
    assert_eq!(cache.get(300, 298), Natural::from_u64(44850));
    assert_eq!(cache.get(62, 31), cache.get(62, 31));
    assert_eq!(compute_binomial(300, 3), Natural::from_u64(4455100));
    assert_eq!(compute_binomial(300, 297), Natural::from_u64(4455100));
    for n in [0u64, 1, 7, 255, 256, 400, 1000] {
        for k in 0..=n.min(40) {
            assert_eq!(cache.get(n, k), cache.get(n, n - k));
            assert_eq!(cache.get(n, k), compute_binomial(n, k));
        }
    }
}

#[test]
fn arithmetic_is_exact() {
    let big = Natural::from_u64(u64::MAX);
    let sum = big.plus(&Natural::from_u64(1));
    assert_eq!(sum.digits, vec![0, 0, 1]);
    assert_eq!(sum.minus(&Natural::from_u64(1)), big);
    assert_eq!(Natural::from_u64(7).times_u64(6), Natural::from_u64(42));
    assert_eq!(Natural::from_u64(43).div_u64(6), Natural::from_u64(7));
    assert!(Natural::from_u64(3).less_than(&Natural::from_u64(4)));
    assert!(!Natural::from_u64(4).less_than(&Natural::from_u64(4)));
    assert_eq!(Natural::from_u64(0), Natural::zero());
}

#[test]
fn chunk_boundaries_do_not_change_rank() {
    let mut cache = BinomialCache::new();
    let bits = random_bits(150, 170);
    let whole = get_permutation_index(&Bits::from_bools(&bits), 150, 170, &mut cache);
    for size in [1usize, 7, 64, 320] {
        let mut ranker = BitRanker::new(150, 170);
        for chunk in bits.chunks(size) {
            ranker.process_chunk(&mut cache, &Bits::from_bools(&chunk.to_vec()));
        }
        assert_eq!(ranker.finalize(), whole);
    }
    assert_eq!(stream_rank(&Bits::from_bools(&bits), 150, 170, &mut cache), whole);
}

#[test]
fn chunked_decode_matches_batch() {
    let mut cache = BinomialCache::new();
    let bits = random_bits(100, 90);
    let index = get_permutation_index(&Bits::from_bools(&bits), 100, 90, &mut cache);
    let batch = get_nth_permutation(&index, 100, 90, &mut cache).to_bools();
    assert_eq!(batch, bits);
    for size in [1usize, 7, 64] {
        let mut unranker = BitUnranker::new(index.copy(), 100, 90);
        let mut out = Vec::new();
        loop {
            let chunk = unranker.next_chunk(&mut cache, size).to_bools();
            if chunk.is_empty() {
                break;
            }
            assert!(chunk.len() <= size);
            out.extend(chunk);
        }
        assert_eq!(out, batch);
        assert!(unranker.next_chunk(&mut cache, size).to_bools().is_empty());
    }
}

#[test]
fn ranks_stay_below_count_and_follow_order() {
    let mut cache = BinomialCache::new();
    let total = 10u64;
    let mut last: Option<Natural> = None;
    let mut seen = 0u64;
    // all sequences of 4 ones and 6 zeros, in lexicographic order
    for word in 0u32..(1 << 10) {
        if word.count_ones() != 4 {
            continue;
        }
        let bits: Vec<bool> = (0..10).rev().map(|i| (word >> i) & 1 == 1).collect();
        let rank = get_permutation_index(&Bits::from_bools(&bits), 4, 6, &mut cache);
        assert!(rank.less_than(&Natural::from_u64(210)));
        assert_eq!(rank, Natural::from_u64(seen));
        if let Some(prev) = &last {
            assert!(prev.less_than(&rank));
        }
        last = Some(rank);
        seen += 1;
    }
    assert_eq!(seen, 210);
    assert_eq!(binomial_coefficient(total, 4), Natural::from_u64(210));
}

#[test]
fn degenerate_compositions() {
    let mut cache = BinomialCache::new();
    let zeros_only = vec![false; 12];
    let ones_only = vec![true; 12];
    assert_eq!(get_permutation_index(&Bits::from_bools(&zeros_only), 0, 12, &mut cache), Natural::zero());
    assert_eq!(get_permutation_index(&Bits::from_bools(&ones_only), 12, 0, &mut cache), Natural::zero());
    assert_eq!(get_nth_permutation(&Natural::zero(), 0, 12, &mut cache).to_bools(), zeros_only);
    assert_eq!(get_nth_permutation(&Natural::zero(), 12, 0, &mut cache).to_bools(), ones_only);
    assert_eq!(get_nth_permutation(&Natural::zero(), 0, 0, &mut cache).to_bools(), Vec::<bool>::new());
}

#[test]
fn random_round_trips() {
    let mut cache = BinomialCache::new();
    let length: usize = 1000;
    for trial in 0..100 {
        let ones = match trial {
            0 => 0,
            1 => length,
            _ => rand::random_range(0usize..=length),
        };
        let zeros = length - ones;
        let bits = random_bits(ones, zeros);
        let index = stream_rank(&Bits::from_bools(&bits), ones as u64, zeros as u64, &mut cache);
        let back = stream_unrank(index, ones as u64, zeros as u64, &mut cache).to_bools();
        assert_eq!(back, bits);
    }
}
