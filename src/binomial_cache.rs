//! A provider of binomial coefficients: a table of Pascal's triangle for small
//! arguments, and a bounded least-recently-used cache above it.
use crate::binomial::{binom, compute_binomial, lemma_binom_above, lemma_binom_diagonal, lemma_binom_symmetric};
use crate::natural::Natural;
use lru::LruCache;
use std::collections::hash_map::RandomState;
use std::num::NonZeroUsize;
use vstd::prelude::*;

verus! {

#[verifier::external_type_specification]
#[verifier::external_body]
#[verifier::reject_recursive_types(K)]
#[verifier::reject_recursive_types(V)]
#[verifier::reject_recursive_types(S)]
pub struct ExLruCache<K, V, S>(LruCache<K, V, S>);

/// The cache type: coefficients keyed by their arguments.
pub type CoefficientLru = LruCache<(u64, u64), Natural, RandomState>;

/// The entries held by a cache of coefficients: each key `(n, k)` with the
/// value of the number stored under it.
pub uninterp spec fn lru_entries(c: CoefficientLru) -> Map<(u64, u64), nat>;

/// Relies on `LruCache::with_hasher`: a new cache of the given capacity is empty.
#[verifier::external_body]
fn lru_new(cap: usize) -> (r: CoefficientLru)
    requires
        cap > 0,
    ensures
        forall|q: (u64, u64)| !(#[trigger] lru_entries(r).contains_key(q)),
{
    LruCache::with_hasher(NonZeroUsize::new(cap).unwrap(), RandomState::new())
}

/// Relies on `LruCache::get`: it finds the value stored under the key, if any,
/// and changes only the order of recency, never the entries.
#[verifier::external_body]
fn lru_get(c: &mut CoefficientLru, key: (u64, u64)) -> (r: Option<Natural>)
    ensures
        lru_entries(*final(c)) == lru_entries(*old(c)),
        r is Some <==> lru_entries(*old(c)).contains_key(key),
        r is Some ==> r->0@ == lru_entries(*old(c))[key],
{
    c.get(&key).cloned()
}

/// Relies on `LruCache::put`: the key then holds the value, and any other entry
/// that remains is one that was there before (the least recently used may leave).
#[verifier::external_body]
fn lru_put(c: &mut CoefficientLru, key: (u64, u64), v: Natural)
    ensures
        lru_entries(*final(c)).contains_key(key),
        lru_entries(*final(c))[key] == v@,
        forall|q: (u64, u64)|
            #![trigger lru_entries(*final(c)).contains_key(q)]
            q != key && lru_entries(*final(c)).contains_key(q) ==> lru_entries(*old(c)).contains_key(q)
                && lru_entries(*final(c))[q] == lru_entries(*old(c))[q],
{
    c.put(key, v);
}

/// Arguments below this bound are answered from the precomputed table.
pub const PRECOMPUTE_LIMIT: usize = 256;

/// How many larger coefficients the cache keeps.
pub const CACHE_CAPACITY: usize = 1024;

/// Exact binomial coefficients, computed once and reused.
pub struct BinomialCache {
    cache: CoefficientLru,
    precomputed: Vec<Vec<Natural>>,
}

impl BinomialCache {
    /// Every stored number is the coefficient it stands for.
    pub closed spec fn wf(&self) -> bool {
        &&& self.precomputed@.len() == PRECOMPUTE_LIMIT
        &&& forall|n: int|
            #![trigger self.precomputed@[n]]
            0 <= n < PRECOMPUTE_LIMIT ==> self.precomputed@[n]@.len() == n + 1 && forall|k: int|
                #![trigger self.precomputed@[n]@[k]]
                0 <= k <= n ==> self.precomputed@[n]@[k]@ == binom(n as nat, k as nat)
        &&& forall|q: (u64, u64)|
            #![trigger lru_entries(self.cache).contains_key(q)]
            lru_entries(self.cache).contains_key(q) ==> lru_entries(self.cache)[q] == binom(
                q.0 as nat,
                q.1 as nat,
            )
    }

    /// Builds the table of Pascal's triangle below the bound, and an empty cache.
    pub fn new() -> (r: BinomialCache)
        ensures
            r.wf(),
    {
        let mut precomputed: Vec<Vec<Natural>> = Vec::new();
        let mut n: usize = 0;
        while n < PRECOMPUTE_LIMIT
            invariant
                n <= PRECOMPUTE_LIMIT,
                precomputed@.len() == n,
                forall|i: int|
                    #![trigger precomputed@[i]]
                    0 <= i < n ==> precomputed@[i]@.len() == i + 1 && forall|k: int|
                        #![trigger precomputed@[i]@[k]]
                        0 <= k <= i ==> precomputed@[i]@[k]@ == binom(i as nat, k as nat),
            decreases PRECOMPUTE_LIMIT - n,
        {
            let mut row: Vec<Natural> = Vec::new();
            row.push(Natural::from_u64(1));
            let mut k: usize = 1;
            while k <= n
                invariant
                    1 <= k <= n + 1,
                    n < PRECOMPUTE_LIMIT,
                    precomputed@.len() == n,
                    row@.len() == k,
                    forall|i: int|
                        #![trigger precomputed@[i]]
                        0 <= i < n ==> precomputed@[i]@.len() == i + 1 && forall|j: int|
                            #![trigger precomputed@[i]@[j]]
                            0 <= j <= i ==> precomputed@[i]@[j]@ == binom(i as nat, j as nat),
                    forall|j: int|
                        #![trigger row@[j]]
                        0 <= j < k ==> row@[j]@ == binom(n as nat, j as nat),
                decreases n + 1 - k,
            {
                let prev = &precomputed[n - 1];
                let v = if k == n {
                    proof {
                        lemma_binom_diagonal(n as nat);
                    }
                    Natural::from_u64(1)
                } else {
                    prev[k - 1].plus(&prev[k])
                };
                row.push(v);
                k = k + 1;
            }
            precomputed.push(row);
            n = n + 1;
        }
        BinomialCache { cache: lru_new(CACHE_CAPACITY), precomputed }
    }

    /// C(n, k); zero when k exceeds n.
    pub fn get(&mut self, n: u64, k: u64) -> (r: Natural)
        requires
            old(self).wf(),
        ensures
            final(self).wf(),
            r@ == binom(n as nat, k as nat),
    {
        if k > n {
            proof {
                lemma_binom_above(n as nat, k as nat);
            }
            return Natural::zero();
        }
        let k: u64 = if k <= n - k { k } else { n - k };
        proof {
            lemma_binom_symmetric(n as nat, k as nat);
            lemma_binom_symmetric(n as nat, (n - k) as nat);
        }
        if n < PRECOMPUTE_LIMIT as u64 {
            return self.precomputed[n as usize][k as usize].copy();
        }
        let found = lru_get(&mut self.cache, (n, k));
        match found {
            Some(v) => v,
            None => {
                let result = compute_binomial(n, k);
                lru_put(&mut self.cache, (n, k), result.copy());
                result
            },
        }
    }
}

} // verus!
