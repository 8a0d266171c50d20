//! Binomial coefficients: their definition by Pascal's rule, the facts the
//! codec needs of them, and their exact computation.
use crate::natural::Natural;
use vstd::prelude::*;

verus! {

/// C(n, k), the number of k-element subsets of an n-element set.
pub open spec fn binom(n: nat, k: nat) -> nat
    decreases n,
{
    if k == 0 {
        1
    } else if n == 0 {
        0
    } else {
        binom((n - 1) as nat, (k - 1) as nat) + binom((n - 1) as nat, k)
    }
}

/// C(n, k) is zero when k exceeds n.
pub proof fn lemma_binom_above(n: nat, k: nat)
    requires
        k > n,
    ensures
        binom(n, k) == 0,
    decreases n,
{
    if n > 0 {
        lemma_binom_above((n - 1) as nat, (k - 1) as nat);
        lemma_binom_above((n - 1) as nat, k);
    }
}

/// C(n, n) is one.
pub proof fn lemma_binom_diagonal(n: nat)
    ensures
        binom(n, n) == 1,
    decreases n,
{
    if n > 0 {
        lemma_binom_diagonal((n - 1) as nat);
        lemma_binom_above((n - 1) as nat, n);
    }
}

/// C(n, k) is positive when k is at most n.
pub proof fn lemma_binom_positive(n: nat, k: nat)
    requires
        k <= n,
    ensures
        binom(n, k) > 0,
    decreases n,
{
    if k > 0 {
        lemma_binom_positive((n - 1) as nat, (k - 1) as nat);
    }
}

/// Symmetry: choosing k elements is choosing the n - k left out.
pub proof fn lemma_binom_symmetric(n: nat, k: nat)
    requires
        k <= n,
    ensures
        binom(n, k) == binom(n, (n - k) as nat),
    decreases n,
{
    if k == 0 {
        lemma_binom_diagonal(n);
    } else if k == n {
        lemma_binom_diagonal(n);
    } else {
        lemma_binom_symmetric((n - 1) as nat, (k - 1) as nat);
        lemma_binom_symmetric((n - 1) as nat, k);
        assert(binom(n, (n - k) as nat) == binom((n - 1) as nat, (n - k - 1) as nat) + binom(
            (n - 1) as nat,
            (n - k) as nat,
        ));
    }
}

/// Absorption: (k + 1) C(n + 1, k + 1) == (n + 1) C(n, k).
pub proof fn lemma_binom_absorb(n: nat, k: nat)
    ensures
        (k + 1) * binom(n + 1, k + 1) == (n + 1) * binom(n, k),
    decreases n,
{
    if n == 0 {
        if k > 0 {
            lemma_binom_above(1, k + 1);
            lemma_binom_above(0, k);
            assert((k + 1) * binom(1, k + 1) == 0);
        } else {
            assert(binom(1, 1) == binom(0, 0) + binom(0, 1));
        }
    } else {
        let m = (n - 1) as nat;
        // (k + 1) C(n, k + 1) == n C(n - 1, k)
        lemma_binom_absorb(m, k);
        assert(binom(n + 1, k + 1) == binom(n, k) + binom(n, k + 1));
        if k == 0 {
            assert(binom(n, 0) == 1);
            assert(binom(m, 0) == 1);
            assert(binom(n, 1) == n) by (nonlinear_arith)
                requires
                    1 * binom(n, 1) == n * binom(m, 0),
                    binom(m, 0) == 1,
            ;
            assert((n + 1) * binom(n, 0) == n + 1);
        } else {
            let j = (k - 1) as nat;
            // k C(n, k) == n C(n - 1, k - 1)
            lemma_binom_absorb(m, j);
            assert(binom(n, k) == binom(m, j) + binom(m, k));
            let a = binom(n, k);
            let b = binom(n, k + 1);
            let p = binom(m, j);
            let q = binom(m, k);
            assert((k + 1) * b == n * q);
            assert(k * a == n * p);
            assert((k + 1) * (a + b) == (n + 1) * a) by (nonlinear_arith)
                requires
                    (k + 1) * b == n * q,
                    k * a == n * p,
                    a == p + q,
            ;
        }
    }
}

/// C(n, k) by the multiplicative formula, for k at most n.
pub fn compute_binomial(n: u64, k: u64) -> (r: Natural)
    requires
        k <= n,
    ensures
        r@ == binom(n as nat, k as nat),
{
    if k == 0 || k == n {
        proof {
            lemma_binom_diagonal(n as nat);
        }
        return Natural::from_u64(1);
    }
    let k: u64 = if k <= n - k { k } else { n - k };
    proof {
        lemma_binom_symmetric(n as nat, k as nat);
    }
    let base: u64 = n - k;
    let mut result = Natural::from_u64(1);
    let mut i: u64 = 1;
    proof {
        lemma_binom_diagonal(base as nat);
    }
    while i <= k
        invariant
            1 <= i <= k + 1,
            k <= n,
            k <= base,
            base == n - k,
            result@ == binom((base + i - 1) as nat, (i - 1) as nat),
        decreases k + 1 - i,
    {
        let m: u64 = base + i;
        let product = result.times_u64(m);
        proof {
            lemma_binom_absorb((m - 1) as nat, (i - 1) as nat);
            let c = binom(m as nat, i as nat);
            let ii = i as nat;
            let prev = binom((m - 1) as nat, (i - 1) as nat);
            assert(ii * c == m * prev);
            assert(product@ == prev * m);
            assert(prev * m == m * prev) by (nonlinear_arith);
            assert(product@ == ii * c);
            assert((ii * c) / ii == c) by (nonlinear_arith)
                requires
                    ii > 0,
            ;
        }
        result = product.div_u64(i);
        i = i + 1;
    }
    result
}

/// C(n, k) for any n and k; zero when k exceeds n.
pub fn binomial_coefficient(n: u64, k: u64) -> (r: Natural)
    ensures
        r@ == binom(n as nat, k as nat),
{
    if k > n {
        proof {
            lemma_binom_above(n as nat, k as nat);
        }
        Natural::zero()
    } else {
        compute_binomial(n, k)
    }
}

} // verus!
