//! The ratio that a list of prime exponents stands for.

use vstd::prelude::*;
use crate::arith::all_at_least_two;
use vstd::arithmetic::power::{lemma_pow_increases, lemma_pow_positive, pow};

verus! {

/// `e` if it is positive, else 0.
pub open spec fn pos_part(e: int) -> nat {
    if e > 0 {
        e as nat
    } else {
        0
    }
}

/// The product of `primes[i]` raised to `pos_part(sign * exps[i])` for `i < n`:
/// with `sign == 1` the numerator of the ratio, with `sign == -1` its
/// denominator.
pub open spec fn prime_product(primes: Seq<usize>, exps: Seq<int>, n: int, sign: int) -> int
    decreases n,
{
    if n <= 0 {
        1
    } else {
        prime_product(primes, exps, n - 1, sign) * pow(primes[n - 1] as int, pos_part(sign * exps[n - 1]))
    }
}

/// The exponents as mathematical integers.
pub open spec fn as_ints(exps: Seq<i64>) -> Seq<int> {
    exps.map_values(|e: i64| e as int)
}

pub proof fn lemma_prime_product_grows(primes: Seq<usize>, exps: Seq<int>, sign: int, i: int, n: int)
    requires
        all_at_least_two(primes),
        exps.len() == primes.len(),
        0 <= i <= n <= primes.len(),
    ensures
        1 <= prime_product(primes, exps, i, sign) <= prime_product(primes, exps, n, sign),
    decreases n,
{
    if n > i {
        lemma_prime_product_grows(primes, exps, sign, i, n - 1);
        let a = prime_product(primes, exps, n - 1, sign);
        let b = pow(primes[n - 1] as int, pos_part(sign * exps[n - 1]));
        lemma_pow_positive(primes[n - 1] as int, pos_part(sign * exps[n - 1]));
        assert(a <= a * b) by (nonlinear_arith)
            requires a >= 1, b >= 1;
    } else if i > 0 {
        lemma_prime_product_grows(primes, exps, sign, i - 1, i - 1);
        lemma_pow_positive(primes[i - 1] as int, pos_part(sign * exps[i - 1]));
        let a = prime_product(primes, exps, i - 1, sign);
        let b = pow(primes[i - 1] as int, pos_part(sign * exps[i - 1]));
        assert(a * b >= 1) by (nonlinear_arith)
            requires a >= 1, b >= 1;
    }
}

/// `acc * p^k`, or `None` where that exceeds `u128::MAX`.
pub(crate) fn raise(acc: u128, p: usize, k: u64) -> (r: Option<u128>)
    requires
        acc >= 1,
        p >= 2,
    ensures
        match r {
            Some(v) => v == acc * pow(p as int, k as nat),
            None => acc * pow(p as int, k as nat) > u128::MAX,
        },
{
    let mut v: u128 = acc;
    let mut j: u64 = 0;
    proof {
        reveal(pow);
    }
    while j < k
        invariant
            acc >= 1,
            p >= 2,
            j <= k,
            v == acc * pow(p as int, j as nat),
        decreases k - j,
    {
        match v.checked_mul(p as u128) {
            Some(w) => {
                proof {
                    reveal(pow);
                    assert(pow(p as int, (j + 1) as nat) == p * pow(p as int, j as nat));
                    assert(acc * pow(p as int, j as nat) * p == acc * (p * pow(p as int, j as nat))) by (nonlinear_arith);
                }
                v = w;
            },
            None => {
                proof {
                    reveal(pow);
                    assert(pow(p as int, (j + 1) as nat) == p * pow(p as int, j as nat));
                    lemma_pow_increases(p as nat, (j + 1) as nat, k as nat);
                    assert(acc * pow(p as int, j as nat) * p == acc * (p * pow(p as int, j as nat))) by (nonlinear_arith);
                    let x = pow(p as int, (j + 1) as nat);
                    let y = pow(p as int, k as nat);
                    assert(acc * x <= acc * y) by (nonlinear_arith)
                        requires acc >= 1, x <= y;
                }
                return None;
            },
        }
        j = j + 1;
    }
    Some(v)
}

/// The ratio `(numerator, denominator)` that the exponents stand for, or
/// `None` where either does not fit a `u128`.
pub(crate) fn mul_primes(primes: &Vec<usize>, exps: &Vec<i64>) -> (r: Option<(u128, u128)>)
    requires
        all_at_least_two(primes@),
        exps@.len() == primes@.len(),
    ensures
        match r {
            Some(v) => v.0 == prime_product(primes@, as_ints(exps@), primes@.len() as int, 1)
                && v.1 == prime_product(primes@, as_ints(exps@), primes@.len() as int, -1),
            None => prime_product(primes@, as_ints(exps@), primes@.len() as int, 1) > u128::MAX
                || prime_product(primes@, as_ints(exps@), primes@.len() as int, -1) > u128::MAX,
        },
{
    let ghost ex = as_ints(exps@);
    let ghost len = primes@.len() as int;
    let mut nume: u128 = 1;
    let mut deli: u128 = 1;
    let mut i: usize = 0;
    while i < primes.len()
        invariant
            all_at_least_two(primes@),
            exps@.len() == primes@.len(),
            ex == as_ints(exps@),
            len == primes@.len(),
            i <= len,
            nume == prime_product(primes@, ex, i as int, 1),
            deli == prime_product(primes@, ex, i as int, -1),
        decreases len - i,
    {
        proof {
            lemma_prime_product_grows(primes@, ex, 1, i as int, i as int);
            lemma_prime_product_grows(primes@, ex, -1, i as int, i as int);
            lemma_prime_product_grows(primes@, ex, 1, i + 1, len);
            lemma_prime_product_grows(primes@, ex, -1, i + 1, len);
        }
        let p = primes[i];
        let e = exps[i];
        let up: u64 = if e > 0 { e as u64 } else { 0 };
        let down: u64 = if e < 0 { (-(e as i128)) as u64 } else { 0 };
        assert(up as nat == pos_part(1 * ex[i as int]));
        assert(down as nat == pos_part(-1 * ex[i as int]));
        match raise(nume, p, up) {
            Some(v) => {
                nume = v;
            },
            None => {
                return None;
            },
        }
        match raise(deli, p, down) {
            Some(v) => {
                deli = v;
            },
            None => {
                return None;
            },
        }
        i = i + 1;
    }
    Some((nume, deli))
}

} // verus!
