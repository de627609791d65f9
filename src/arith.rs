//! Prime numbers and trial division, stated over mathematical integers.

use vstd::prelude::*;
use vstd::arithmetic::div_mod::*;
use vstd::arithmetic::power::pow;

verus! {

/// `n` is a prime number.
pub open spec fn is_prime(n: int) -> bool {
    n >= 2 && forall|d: int| 2 <= d < n ==> #[trigger] (n % d) != 0
}

/// `n` with every factor `p` divided out.
pub open spec fn strip(p: int, n: int) -> int
    decreases n,
{
    if p >= 2 && n > 0 && n % p == 0 && n / p < n {
        strip(p, n / p)
    } else {
        n
    }
}

/// How many times `p` divides `n`.
pub open spec fn times_divides(p: int, n: int) -> nat
    decreases n,
{
    if p >= 2 && n > 0 && n % p == 0 && n / p < n {
        1 + times_divides(p, n / p)
    } else {
        0
    }
}

/// What is left of `n` once the first `i` divisors of `divisors` have been
/// divided out, in order.
pub open spec fn residual(divisors: Seq<usize>, i: int, n: int) -> int
    decreases i,
{
    if i <= 0 {
        n
    } else {
        strip(divisors[i - 1] as int, residual(divisors, i - 1, n))
    }
}

/// The exponent of `divisors[i]` found in `n` by trial division over
/// `divisors`, taken in order.
pub open spec fn trial_exponent(divisors: Seq<usize>, i: int, n: int) -> nat {
    times_divides(divisors[i] as int, residual(divisors, i, n))
}

/// Every entry of `divisors` is at least 2.
pub open spec fn all_at_least_two(divisors: Seq<usize>) -> bool {
    forall|j: int| 0 <= j < divisors.len() ==> #[trigger] divisors[j] >= 2
}

pub proof fn lemma_strip(p: int, n: int)
    requires
        p >= 2,
        n >= 1,
    ensures
        1 <= strip(p, n) <= n,
        strip(p, n) % p != 0,
    decreases n,
{
    if n % p == 0 {
        lemma_div_decreases(n, p);
        lemma_fundamental_div_mod(n, p);
        assert(n / p >= 1) by (nonlinear_arith)
            requires n == p * (n / p) + n % p, n % p == 0, n >= 1, p >= 2;
        lemma_strip(p, n / p);
    }
}

/// Dividing by `p` never makes a number divisible by `q`.
pub proof fn lemma_strip_keeps_indivisible(p: int, q: int, n: int)
    requires
        p >= 2,
        q >= 2,
        n >= 1,
        n % q != 0,
    ensures
        strip(p, n) % q != 0,
    decreases n,
{
    if n % p == 0 {
        let m = n / p;
        lemma_div_decreases(n, p);
        lemma_fundamental_div_mod(n, p);
        assert(m >= 1) by (nonlinear_arith)
            requires n == p * m + n % p, n % p == 0, n >= 1, p >= 2;
        if m % q == 0 {
            lemma_fundamental_div_mod(m, q);
            let a = m / q;
            assert(n == q * (p * a)) by (nonlinear_arith)
                requires n == p * m, m == q * a;
            lemma_mod_multiples_basic(p * a, q);
            assert(false);
        }
        lemma_strip_keeps_indivisible(p, q, m);
    }
}

pub proof fn lemma_residual(divisors: Seq<usize>, i: int, n: int)
    requires
        all_at_least_two(divisors),
        0 <= i <= divisors.len(),
        n >= 1,
    ensures
        1 <= residual(divisors, i, n) <= n,
        forall|j: int| 0 <= j < i ==> #[trigger] (residual(divisors, i, n) % (divisors[j] as int)) != 0,
    decreases i,
{
    if i > 0 {
        lemma_residual(divisors, i - 1, n);
        let r = residual(divisors, i - 1, n);
        let p = divisors[i - 1] as int;
        lemma_strip(p, r);
        assert forall|j: int| 0 <= j < i implies #[trigger] (residual(divisors, i, n) % (divisors[j] as int)) != 0 by {
            if j < i - 1 {
                lemma_strip_keeps_indivisible(p, divisors[j] as int, r);
            }
        }
    }
}

/// Every integer from 2 up has a prime divisor no larger than itself.
pub proof fn lemma_prime_divisor(n: int) -> (d: int)
    requires
        n >= 2,
    ensures
        is_prime(d),
        d <= n,
        n % d == 0,
    decreases n,
{
    if is_prime(n) {
        lemma_mod_self_0(n);
        n
    } else {
        let c = choose|c: int| 2 <= c < n && #[trigger] (n % c) == 0;
        let d = lemma_prime_divisor(c);
        lemma_fundamental_div_mod(n, c);
        lemma_fundamental_div_mod(c, d);
        let a = n / c;
        let b = c / d;
        assert(n == d * (b * a)) by (nonlinear_arith)
            requires n == c * a + n % c, n % c == 0, c == d * b + c % d, c % d == 0;
        lemma_mod_multiples_basic(b * a, d);
        d
    }
}

/// `n` is `p` raised to the number of times `p` divides it, times what is
/// left once those factors are divided out.
pub proof fn lemma_strip_product(p: int, n: int)
    requires
        p >= 2,
        n >= 1,
    ensures
        n == pow(p, times_divides(p, n)) * strip(p, n),
    decreases n,
{
    reveal(pow);
    if n % p == 0 {
        lemma_div_decreases(n, p);
        lemma_fundamental_div_mod(n, p);
        let m = n / p;
        assert(m >= 1) by (nonlinear_arith)
            requires n == p * m + n % p, n % p == 0, n >= 1, p >= 2;
        lemma_strip_product(p, m);
        let t = times_divides(p, m);
        assert(pow(p, t + 1) == p * pow(p, t));
        assert(n == p * (pow(p, t) * strip(p, m)));
        assert(p * (pow(p, t) * strip(p, m)) == (p * pow(p, t)) * strip(p, m)) by (nonlinear_arith);
    } else {
        assert(pow(p, 0) == 1);
    }
}

/// `a` divides `b` and `b` divides `c`, so `a` divides `c`.
pub proof fn lemma_divides_trans(a: int, b: int, c: int)
    requires
        a >= 1,
        b >= 1,
        b % a == 0,
        c % b == 0,
    ensures
        c % a == 0,
{
    lemma_fundamental_div_mod(c, b);
    lemma_fundamental_div_mod(b, a);
    let x = c / b;
    let y = b / a;
    assert(c == a * (y * x)) by (nonlinear_arith)
        requires c == b * x + c % b, c % b == 0, b == a * y + b % a, b % a == 0;
    lemma_mod_multiples_basic(y * x, a);
}

/// A number from 2 up that is not prime has a prime divisor whose square is
/// at most the number.
pub proof fn lemma_small_prime_divisor(n: int) -> (d: int)
    requires
        n >= 2,
        !is_prime(n),
    ensures
        is_prime(d),
        d * d <= n,
        n % d == 0,
{
    let c = choose|c: int| 2 <= c < n && #[trigger] (n % c) == 0;
    lemma_fundamental_div_mod(n, c);
    let a = n / c;
    assert(a >= 2 && c * a == n) by (nonlinear_arith)
        requires n == c * a + n % c, n % c == 0, 2 <= c < n;
    let m = if c <= a { c } else { a };
    assert(m * m <= n) by (nonlinear_arith)
        requires m == c || m == a, m <= c, m <= a, c * a == n, m >= 2;
    assert(n % m == 0) by {
        if m == a {
            lemma_mod_multiples_basic(c, a);
            assert(c * a == a * c) by (nonlinear_arith);
        }
    }
    let d = lemma_prime_divisor(m);
    lemma_divides_trans(d, m, n);
    assert(d * d <= n) by (nonlinear_arith)
        requires 2 <= d <= m, m * m <= n;
    d
}

/// Trial division over a list that holds every prime up to `n` leaves nothing.
pub proof fn lemma_trial_division_complete(divisors: Seq<usize>, n: int)
    requires
        all_at_least_two(divisors),
        n >= 1,
        forall|d: int| 2 <= d <= n && is_prime(d) ==> exists|j: int| 0 <= j < divisors.len() && divisors[j] == d,
    ensures
        residual(divisors, divisors.len() as int, n) == 1,
{
    let r = residual(divisors, divisors.len() as int, n);
    lemma_residual(divisors, divisors.len() as int, n);
    if r >= 2 {
        let d = lemma_prime_divisor(r);
        let j = choose|j: int| 0 <= j < divisors.len() && divisors[j] == d;
        assert(r % (divisors[j] as int) != 0);
    }
}

} // verus!
