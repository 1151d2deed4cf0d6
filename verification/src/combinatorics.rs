//! Binomial coefficients: their mathematics and their saturating evaluation.
use vstd::arithmetic::div_mod::{lemma_div_multiples_vanish, lemma_fundamental_div_mod};
use vstd::prelude::*;

verus! {

/// The number of ways to choose `k` things out of `n`, by Pascal's rule.
pub open spec fn choose_count(n: nat, k: nat) -> nat
    decreases n,
{
    if k == 0 {
        1
    } else if n == 0 {
        0
    } else {
        choose_count((n - 1) as nat, (k - 1) as nat) + choose_count((n - 1) as nat, k)
    }
}

/// `x`, or `limit` where `x` lies above it.
pub open spec fn capped(x: nat, limit: nat) -> nat {
    if x <= limit {
        x
    } else {
        limit
    }
}

/// Nothing can be chosen beyond what is there.
pub proof fn lemma_choose_above(n: nat, k: nat)
    requires
        k > n,
    ensures
        choose_count(n, k) == 0,
    decreases n,
{
    if n > 0 {
        lemma_choose_above((n - 1) as nat, (k - 1) as nat);
        lemma_choose_above((n - 1) as nat, k);
    }
}

/// There is one way to choose everything.
pub proof fn lemma_choose_all(n: nat)
    ensures
        choose_count(n, n) == 1,
    decreases n,
{
    if n > 0 {
        lemma_choose_all((n - 1) as nat);
        lemma_choose_above((n - 1) as nat, n);
    }
}

/// The step of the multiplicative formula, `C(n, k) = C(n, k - 1) * (n - k + 1) / k`.
pub proof fn lemma_choose_step(n: nat, k: nat)
    requires
        1 <= k <= n + 1,
    ensures
        (n - k + 1) * choose_count(n, (k - 1) as nat) == k * choose_count(n, k),
    decreases n,
{
    if n == 0 {
        assert(k == 1);
        assert(choose_count(0, 1) == 0);
    } else if k == n + 1 {
        lemma_choose_above(n, k);
        assert((n - k + 1) * choose_count(n, (k - 1) as nat) == 0) by (nonlinear_arith)
            requires
                n - k + 1 == 0,
        ;
    } else {
        let m = (n - 1) as nat;
        let a = choose_count(m, (k - 1) as nat);
        let b = choose_count(m, k);
        lemma_choose_step(m, k);
        if k == 1 {
            assert((n - k + 1) * a == k * (a + b)) by (nonlinear_arith)
                requires
                    (m - k + 1) * a == k * b,
                    m == n - 1,
                    k == 1,
            ;
            assert(a == choose_count(n, (k - 1) as nat));
        } else {
            let c = choose_count(m, (k - 2) as nat);
            lemma_choose_step(m, (k - 1) as nat);
            assert((n - k + 1) * (c + a) == k * (a + b)) by (nonlinear_arith)
                requires
                    (m - k + 1) * a == k * b,
                    (m - (k - 1) + 1) * c == (k - 1) * a,
                    m == n - 1,
            ;
        }
    }
}

/// Choosing `k` is leaving out `n - k`.
pub proof fn lemma_choose_symmetric(n: nat, k: nat)
    requires
        k <= n,
    ensures
        choose_count(n, k) == choose_count(n, (n - k) as nat),
    decreases n,
{
    if k == 0 {
        lemma_choose_all(n);
    } else if k == n {
        lemma_choose_all(n);
    } else {
        lemma_choose_symmetric((n - 1) as nat, (k - 1) as nat);
        lemma_choose_symmetric((n - 1) as nat, k);
    }
}

/// Along a row of Pascal's triangle the entries grow up to the middle.
pub proof fn lemma_choose_grows(n: nat, i: nat, k: nat)
    requires
        i <= k,
        2 * k <= n,
    ensures
        choose_count(n, i) <= choose_count(n, k),
    decreases k,
{
    if i < k {
        let a = choose_count(n, (k - 1) as nat);
        let b = choose_count(n, k);
        lemma_choose_grows(n, i, (k - 1) as nat);
        lemma_choose_step(n, k);
        assert(a <= b) by (nonlinear_arith)
            requires
                (n - k + 1) * a == k * b,
                n - k + 1 >= k,
                k >= 1,
        ;
    }
}

/// Binomial coefficient (n choose k), evaluated by the multiplicative formula
/// `product_{i=1}^{k} (n - i + 1) / i`. The value is exact up to `u128::MAX`,
/// which stands for every larger coefficient too.
pub fn binomial(n: u64, k: u64) -> (res: u128)
    ensures
        res == capped(choose_count(n as nat, k as nat), u128::MAX as nat),
{
    if k > n {
        proof {
            lemma_choose_above(n as nat, k as nat);
        }
        return 0;
    }
    if k == 0 || k == n {
        proof {
            lemma_choose_all(n as nat);
        }
        return 1;
    }
    let k_min: u64 = if k <= n - k {
        k
    } else {
        n - k
    };
    proof {
        lemma_choose_symmetric(n as nat, k as nat);
    }
    let mut res: u128 = 1;
    let mut i: u64 = 1;
    while i <= k_min
        invariant
            1 <= i <= k_min + 1,
            2 * k_min <= n,
            res == choose_count(n as nat, (i - 1) as nat),
            choose_count(n as nat, k_min as nat) == choose_count(n as nat, k as nat),
        decreases k_min + 1 - i,
    {
        let factor: u128 = (n - i + 1) as u128;
        let divisor: u128 = i as u128;
        let quotient: u128 = res / divisor;
        let rest: u128 = res % divisor;
        let ghost next = choose_count(n as nat, i as nat);
        proof {
            lemma_choose_step(n as nat, i as nat);
            lemma_choose_grows(n as nat, i as nat, k_min as nat);
            lemma_fundamental_div_mod(res as int, divisor as int);
            // next * i == res * factor == i * (quotient * factor) + rest * factor
            assert(rest * factor == divisor * (next - quotient * factor)) by (nonlinear_arith)
                requires
                    factor * res == divisor * next,
                    res == divisor * quotient + rest,
            ;
            assert(rest * factor <= u128::MAX) by (nonlinear_arith)
                requires
                    0 <= rest <= 0xffff_ffff_ffff_ffff,
                    0 <= factor <= 0xffff_ffff_ffff_ffff,
            ;
            lemma_div_multiples_vanish(next - quotient * factor, divisor as int);
            assert(next >= quotient * factor) by (nonlinear_arith)
                requires
                    rest * factor == divisor * (next - quotient * factor),
                    rest >= 0,
                    factor >= 0,
                    divisor >= 1,
            ;
        }
        let low: u128 = rest * factor / divisor;
        match quotient.checked_mul(factor) {
            None => {
                return u128::MAX;
            },
            Some(high) => match high.checked_add(low) {
                None => {
                    return u128::MAX;
                },
                Some(sum) => {
                    res = sum;
                },
            },
        }
        i = i + 1;
    }
    res
}

/// Binomial coefficient (n choose k), exact up to `u64::MAX`, which stands for every larger
/// coefficient too.
pub fn binomial_u64(n: u64, k: u64) -> (res: u64)
    ensures
        res == capped(choose_count(n as nat, k as nat), u64::MAX as nat),
{
    let wide: u128 = binomial(n, k);
    if wide <= u64::MAX as u128 {
        wide as u64
    } else {
        u64::MAX
    }
}

} // verus!
