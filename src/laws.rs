//! What holds of sequences of calls, proved from the operations' contracts.

use vstd::prelude::*;
use vstd::arithmetic::power::{lemma_pow0, lemma_pow_adds, lemma_pow_increases, lemma_pow_positive, pow};
use vstd::arithmetic::power2::{lemma2_to64, pow2};
use crate::arith::{
    all_at_least_two, lemma_residual, lemma_strip_product, lemma_trial_division_complete, residual, strip, trial_exponent,
};
use crate::accumulator::{
    MulDiv, MultError, MultMult, applied, based, base_exponent, comb_step, fold_overflows, folded, fresh, perm_step,
    same_view, span, top_key, value_post,
};
use crate::factor::{gathered, multiplicity, overflows_after, sweep_overflows};
use crate::ratio::{as_ints, lemma_prime_product_grows, pos_part, prime_product};
use crate::sieve::catalog_ok;
use crate::pending::{delta_at, fits_i64};

verus! {

/// Two ascending lists that both hold exactly the primes up to `f` are equal.
pub proof fn lemma_catalog_unique(a: Seq<usize>, b: Seq<usize>, f: int)
    requires
        catalog_ok(a, f),
        catalog_ok(b, f),
    ensures
        a == b,
{
    assert forall|i: int| 0 <= i < a.len() && i < b.len() implies #[trigger] a[i] == b[i] by {
        lemma_catalog_unique_at(a, b, f, i);
    }
    lemma_catalog_longer(a, b, f);
    lemma_catalog_longer(b, a, f);
    assert(a =~= b);
}

proof fn lemma_catalog_unique_at(a: Seq<usize>, b: Seq<usize>, f: int, i: int)
    requires
        catalog_ok(a, f),
        catalog_ok(b, f),
        0 <= i < a.len(),
        i < b.len(),
    ensures
        a[i] == b[i],
    decreases i,
{
    if i > 0 {
        lemma_catalog_unique_at(a, b, f, i - 1);
    }
    if a[i] < b[i] {
        lemma_smaller_is_earlier(a, b, f, i);
    } else if b[i] < a[i] {
        lemma_smaller_is_earlier(b, a, f, i);
    }
}

/// Where the lists agree below `i`, `a[i] < b[i]` would leave `a[i]` no place in `b`.
proof fn lemma_smaller_is_earlier(a: Seq<usize>, b: Seq<usize>, f: int, i: int)
    requires
        catalog_ok(a, f),
        catalog_ok(b, f),
        0 <= i < a.len(),
        i < b.len(),
        forall|j: int| 0 <= j < i ==> a[j] == b[j],
    ensures
        a[i] >= b[i],
{
    if a[i] >= b[i] {
        return;
    }
    let d = a[i] as int;
    assert(2 <= d <= f);
    let j = choose|j: int| 0 <= j < b.len() && b[j] == d;
    if j >= i {
        if j > i {
            assert(b[i] < b[j]);
        }
    } else {
        assert(a[j] == b[j]);
        assert(a[j] < a[i]);
    }
}

/// Where two such lists agree on a prefix, the shorter is not shorter: a
/// prime past its end would be missing from it.
proof fn lemma_catalog_longer(a: Seq<usize>, b: Seq<usize>, f: int)
    requires
        catalog_ok(a, f),
        catalog_ok(b, f),
        forall|i: int| 0 <= i < a.len() && i < b.len() ==> #[trigger] a[i] == b[i],
    ensures
        b.len() <= a.len(),
{
    if b.len() <= a.len() {
        return;
    }
    let n = a.len() as int;
    let d = b[n] as int;
    let j = choose|j: int| 0 <= j < a.len() && a[j] == d;
    assert(b[j] < b[n]);
}

proof fn lemma_as_ints_injective(a: Seq<i64>, b: Seq<i64>)
    requires
        as_ints(a) == as_ints(b),
    ensures
        a == b,
{
    assert(a.len() == as_ints(a).len());
    assert forall|i: int| 0 <= i < a.len() implies #[trigger] a[i] == b[i] by {
        assert(as_ints(a)[i] == a[i] as int);
        assert(as_ints(b)[i] == b[i] as int);
    }
    assert(a =~= b);
}

/// The result of `value`, and the state it leaves, depend on the state's view
/// alone.
pub proof fn value_is_determined(
    s: MultMult,
    t: MultMult,
    s2: MultMult,
    t2: MultMult,
    r: Result<(u128, u128), MultError>,
    q: Result<(u128, u128), MultError>,
)
    requires
        s.wf(),
        t.wf(),
        same_view(s, t),
        value_post(s, s2, r),
        value_post(t, t2, q),
    ensures
        r == q,
        same_view(s2, t2),
{
    if s.cached() is None && s.pending() != Map::<int, int>::empty() && top_key(s.pending()) != usize::MAX {
        let top = top_key(s.pending());
        let f = if top > s.frontier() { top } else { s.frontier() };
        lemma_catalog_unique(s2.catalog(), t2.catalog(), f);
        if r is Ok && q is Ok {
            lemma_as_ints_injective(s2.exponents(), t2.exponents());
        } else if r is Err && q is Err {
            lemma_as_ints_injective(s2.exponents(), t2.exponents());
        }
    }
}

/// Asking for the value twice in a row gives the same answer and changes
/// nothing the second time.
pub proof fn value_is_idempotent(
    s0: MultMult,
    s1: MultMult,
    s2: MultMult,
    r1: Result<(u128, u128), MultError>,
    r2: Result<(u128, u128), MultError>,
)
    requires
        s0.wf(),
        value_post(s0, s1, r1),
        r1 is Ok,
        value_post(s1, s2, r2),
    ensures
        r2 == r1,
        s2 == s1,
{
}

/// Two permutations recorded in either order leave the same pending events,
/// where both orders succeed.
pub proof fn recording_order_is_irrelevant(
    s: MultMult,
    s1: MultMult,
    s2: MultMult,
    t1: MultMult,
    t2: MultMult,
    l1: usize,
    r1: usize,
    mode1: MulDiv,
    l2: usize,
    r2: usize,
    mode2: MulDiv,
    a1: Result<(), MultError>,
    a2: Result<(), MultError>,
    b1: Result<(), MultError>,
    b2: Result<(), MultError>,
)
    requires
        s.wf(),
        applied(s, s1, perm_step(s.pending(), l1 as int, r1 as int, mode1), a1),
        applied(s1, s2, perm_step(s1.pending(), l2 as int, r2 as int, mode2), a2),
        applied(s, t1, perm_step(s.pending(), l2 as int, r2 as int, mode2), b1),
        applied(t1, t2, perm_step(t1.pending(), l1 as int, r1 as int, mode1), b2),
        a1 is Ok,
        a2 is Ok,
        b1 is Ok,
        b2 is Ok,
    ensures
        same_view(s2, t2),
{
    assert(s2.pending() =~= t2.pending());
}

/// Multiplying by `P(left, right)` and then dividing by `right!` leaves what
/// multiplying by `C(left, right)` leaves, so the value asked for next is the
/// same, where the first step succeeds.
pub proof fn combination_is_permutation_over_factorial(
    s: MultMult,
    a1: MultMult,
    a2: MultMult,
    a3: MultMult,
    b1: MultMult,
    b2: MultMult,
    left: usize,
    right: usize,
    ra1: Result<(), MultError>,
    ra2: Result<(), MultError>,
    rb: Result<(), MultError>,
    x: Result<(u128, u128), MultError>,
    y: Result<(u128, u128), MultError>,
)
    requires
        s.wf(),
        applied(s, a1, perm_step(s.pending(), left as int, right as int, MulDiv::Mul), ra1),
        applied(a1, a2, perm_step(a1.pending(), right as int, right as int, MulDiv::Div), ra2),
        applied(s, b1, comb_step(s.pending(), left as int, right as int, MulDiv::Mul, MulDiv::Div), rb),
        ra1 is Ok,
        value_post(a2, a3, x),
        value_post(b1, b2, y),
    ensures
        rb == ra2,
        same_view(a2, b1),
        x == y,
{
    value_is_determined(a2, b1, a3, b2, x, y);
}

proof fn lemma_zero_multiplicity(m: Map<int, int>, x: int)
    requires
        forall|k: int| #[trigger] delta_at(m, k) == 0,
    ensures
        multiplicity(m, x) == 0,
    decreases x,
{
    if x > 0 {
        lemma_zero_multiplicity(m, x - 1);
    }
}

proof fn lemma_zero_gathered(m: Map<int, int>, primes: Seq<usize>, i: int, x: int)
    requires
        forall|k: int| #[trigger] delta_at(m, k) == 0,
    ensures
        gathered(m, primes, i, x) == 0,
    decreases x,
{
    if x > 0 {
        lemma_zero_gathered(m, primes, i, x - 1);
        lemma_zero_multiplicity(m, x);
    }
}

proof fn lemma_unit_product(primes: Seq<usize>, exps: Seq<int>, n: int, sign: int)
    requires
        0 <= n <= exps.len(),
        forall|i: int| 0 <= i < exps.len() ==> #[trigger] exps[i] == 0,
    ensures
        prime_product(primes, exps, n, sign) == 1,
    decreases n,
{
    if n > 0 {
        lemma_unit_product(primes, exps, n - 1, sign);
        lemma_pow0(primes[n - 1] as int);
        assert(sign * exps[n - 1] == 0);
    }
}

/// A new accumulator that multiplies by `n!` and divides by `n!` has value
/// exactly 1, for every `n` whose range end stays below `usize::MAX`.
pub proof fn factorial_over_itself_is_one(
    s0: MultMult,
    s1: MultMult,
    s2: MultMult,
    s3: MultMult,
    n: usize,
    r1: Result<(), MultError>,
    r2: Result<(), MultError>,
    r3: Result<(u128, u128), MultError>,
)
    requires
        fresh(s0),
        n + 1 < usize::MAX,
        applied(s0, s1, perm_step(s0.pending(), n as int, n as int, MulDiv::Mul), r1),
        applied(s1, s2, perm_step(s1.pending(), n as int, n as int, MulDiv::Div), r2),
        value_post(s2, s3, r3),
    ensures
        r1 is Ok,
        r2 is Ok,
        r3 == Ok::<(u128, u128), MultError>((1u128, 1u128)),
{
    let st = span(n as int, n as int).0;
    let en = span(n as int, n as int).1;
    let m2 = s2.pending();
    assert(r1 is Ok);
    assert(r2 is Ok);
    assert forall|k: int| #[trigger] delta_at(m2, k) == 0 by {}
    assert(m2.contains_key(en + 1));
    assert(m2 != Map::<int, int>::empty());
    assert forall|j: int| #[trigger] m2.contains_key(j) implies j <= en + 1 by {}
    let top = top_key(m2);
    assert(m2.contains_key(top) && forall|j: int| #[trigger] m2.contains_key(j) ==> j <= top);
    assert(top == en + 1);
    let cat = s3.catalog();
    let len = cat.len() as int;
    let ex = folded(m2, cat, s2.exponents(), top);
    assert forall|i: int| 0 <= i < ex.len() implies #[trigger] ex[i] == 0 by {
        lemma_zero_gathered(m2, cat, i, top);
        assert(base_exponent(s2.exponents(), i) == 0);
    }
    lemma_unit_product(cat, ex, len, 1);
    lemma_unit_product(cat, ex, len, -1);
    let bs = based(s2.exponents(), len);
    if sweep_overflows(m2, cat, bs, top) {
        if exists|y: int| 1 <= y <= top && !fits_i64(#[trigger] multiplicity(m2, y)) {
            let y = choose|y: int| 1 <= y <= top && !fits_i64(#[trigger] multiplicity(m2, y));
            lemma_zero_multiplicity(m2, y);
        } else {
            let (i, y, k) = choose|i: int, y: int, k: int|
                0 <= i < cat.len() && 1 <= y <= top && 1 <= k <= trial_exponent(cat, i, y)
                    && #[trigger] overflows_after(bs[i] + gathered(m2, cat, i, y - 1), k, multiplicity(m2, y));
            lemma_zero_multiplicity(m2, y);
            lemma_zero_gathered(m2, cat, i, y - 1);
            assert(bs[i] == 0);
        }
    }
    assert(!fold_overflows(m2, cat, s2.exponents(), top));
}

/// `n!`.
pub open spec fn factorial(n: nat) -> nat
    decreases n,
{
    if n == 0 {
        1
    } else {
        n * factorial((n - 1) as nat)
    }
}

/// The exponents that trial division over `primes` finds in `y`.
pub open spec fn trial_exponents(primes: Seq<usize>, y: int) -> Seq<int> {
    Seq::new(primes.len(), |j: int| trial_exponent(primes, j, y) as int)
}

/// Trial division takes `y` apart: the primes raised to the exponents found,
/// times what is left, give `y` back.
proof fn lemma_trial_product(primes: Seq<usize>, y: int, i: int)
    requires
        all_at_least_two(primes),
        y >= 1,
        0 <= i <= primes.len(),
    ensures
        y == prime_product(primes, trial_exponents(primes, y), i, 1) * residual(primes, i, y),
    decreases i,
{
    let t = trial_exponents(primes, y);
    if i > 0 {
        lemma_trial_product(primes, y, i - 1);
        lemma_residual(primes, i - 1, y);
        let r = residual(primes, i - 1, y);
        let p = primes[i - 1] as int;
        lemma_strip_product(p, r);
        assert(pos_part(1 * t[i - 1]) == trial_exponent(primes, i - 1, y));
        let a = prime_product(primes, t, i - 1, 1);
        let b = pow(p, trial_exponent(primes, i - 1, y));
        let c = strip(p, r);
        assert(y == a * r);
        assert(r == b * c);
        assert(a * (b * c) == (a * b) * c) by (nonlinear_arith);
    }
}

/// With natural exponents, the product over a sum of exponents is the product
/// of the two products.
proof fn lemma_product_of_sum(primes: Seq<usize>, a: Seq<int>, b: Seq<int>, c: Seq<int>, n: int)
    requires
        0 <= n <= a.len(),
        n <= b.len(),
        n <= c.len(),
        forall|j: int| 0 <= j < n ==> #[trigger] a[j] >= 0 && b[j] >= 0 && c[j] == a[j] + b[j],
    ensures
        prime_product(primes, c, n, 1) == prime_product(primes, a, n, 1) * prime_product(primes, b, n, 1),
    decreases n,
{
    if n > 0 {
        lemma_product_of_sum(primes, a, b, c, n - 1);
        let p = primes[n - 1] as int;
        let x = a[n - 1];
        let y = b[n - 1];
        assert(pos_part(1 * c[n - 1]) == (x + y) as nat);
        assert(pos_part(1 * a[n - 1]) == x as nat);
        assert(pos_part(1 * b[n - 1]) == y as nat);
        lemma_pow_adds(p, x as nat, y as nat);
        let pa = prime_product(primes, a, n - 1, 1);
        let pb = prime_product(primes, b, n - 1, 1);
        let qa = pow(p, x as nat);
        let qb = pow(p, y as nat);
        assert((pa * pb) * (qa * qb) == (pa * qa) * (pb * qb)) by (nonlinear_arith);
    }
}

/// With natural exponents, the denominator is 1.
proof fn lemma_no_denominator(primes: Seq<usize>, a: Seq<int>, n: int)
    requires
        0 <= n <= a.len(),
        forall|j: int| 0 <= j < n ==> #[trigger] a[j] >= 0,
    ensures
        prime_product(primes, a, n, -1) == 1,
    decreases n,
{
    if n > 0 {
        lemma_no_denominator(primes, a, n - 1);
        assert(pos_part(-1 * a[n - 1]) == 0);
        lemma_pow0(primes[n - 1] as int);
    }
}

/// Each integer of `1..=en` once, nothing else.
proof fn lemma_single_range_multiplicity(m: Map<int, int>, en: int, x: int)
    requires
        en >= 1,
        delta_at(m, 1) == 1,
        delta_at(m, en + 1) == -1,
        forall|k: int| k != 1 && k != en + 1 ==> #[trigger] delta_at(m, k) == 0,
    ensures
        multiplicity(m, x) == if 1 <= x <= en { 1int } else { 0int },
    decreases x,
{
    if x > 0 {
        lemma_single_range_multiplicity(m, en, x - 1);
    }
}

/// The exponents gathered from `1..=x` multiply back to `min(x, en)!`.
proof fn lemma_gathered_factorial(m: Map<int, int>, cat: Seq<usize>, f: int, en: int, x: int)
    requires
        catalog_ok(cat, f),
        1 <= en,
        0 <= x <= f,
        delta_at(m, 1) == 1,
        delta_at(m, en + 1) == -1,
        forall|k: int| k != 1 && k != en + 1 ==> #[trigger] delta_at(m, k) == 0,
    ensures
        forall|i: int| 0 <= i < cat.len() ==> #[trigger] gathered(m, cat, i, x) >= 0,
        prime_product(cat, Seq::new(cat.len(), |i: int| gathered(m, cat, i, x)), cat.len() as int, 1)
            == factorial((if x <= en { x } else { en }) as nat),
    decreases x,
{
    let n = cat.len() as int;
    let g = Seq::new(cat.len(), |i: int| gathered(m, cat, i, x));
    if x == 0 {
        assert forall|i: int| 0 <= i < g.len() implies #[trigger] g[i] == 0 by {}
        lemma_unit_product(cat, g, n, 1);
    } else {
        lemma_gathered_factorial(m, cat, f, en, x - 1);
        lemma_single_range_multiplicity(m, en, x);
        let g0 = Seq::new(cat.len(), |i: int| gathered(m, cat, i, x - 1));
        if x <= en {
            let t = trial_exponents(cat, x);
            assert forall|j: int| 0 <= j < n implies #[trigger] g0[j] >= 0 && t[j] >= 0 && g[j] == g0[j] + t[j] by {
                assert(gathered(m, cat, j, x) == gathered(m, cat, j, x - 1) + 1 * trial_exponent(cat, j, x));
            }
            lemma_product_of_sum(cat, g0, t, g, n);
            lemma_trial_product(cat, x, n);
            lemma_trial_division_complete(cat, x);
            let pt = prime_product(cat, t, n, 1);
            assert(pt == x);
            assert(factorial(x as nat) == x * factorial((x - 1) as nat));
            assert(prime_product(cat, g, n, 1) == factorial((x - 1) as nat) * pt);
            assert(factorial((x - 1) as nat) * x == x * factorial((x - 1) as nat)) by (nonlinear_arith);
        } else {
            assert forall|j: int| 0 <= j < n implies #[trigger] g[j] == g0[j] by {
                assert(gathered(m, cat, j, x) == gathered(m, cat, j, x - 1) + 0 * trial_exponent(cat, j, x));
            }
            assert(g =~= g0);
        }
        assert forall|i: int| 0 <= i < cat.len() implies #[trigger] gathered(m, cat, i, x) >= 0 by {
            assert(g0[i] >= 0);
            if x <= en {
                assert(gathered(m, cat, i, x) == gathered(m, cat, i, x - 1) + 1 * trial_exponent(cat, i, x));
            } else {
                assert(gathered(m, cat, i, x) == gathered(m, cat, i, x - 1) + 0 * trial_exponent(cat, i, x));
            }
        }
    }
}

proof fn lemma_pow_base_grows(p: int, e: nat)
    requires
        p >= 2,
    ensures
        pow(2, e) <= pow(p, e),
    decreases e,
{
    reveal(pow);
    if e > 0 {
        lemma_pow_base_grows(p, (e - 1) as nat);
        lemma_pow_positive(2, (e - 1) as nat);
        let a = pow(2, (e - 1) as nat);
        let b = pow(p, (e - 1) as nat);
        assert(2 * a <= p * b) by (nonlinear_arith)
            requires 0 < a <= b, 2 <= p;
    }
}

/// An exponent whose power of a prime fits in a `u128` is below 128.
proof fn lemma_small_exponent(p: int, e: nat)
    requires
        p >= 2,
        pow(p, e) <= u128::MAX,
    ensures
        e < 128,
{
    if e >= 128 {
        lemma2_to64();
        lemma_pow_adds(2, 64, 64);
        lemma_pow_increases(2, 128, e);
        lemma_pow_base_grows(p, e);
        lemma_pow_positive(2, 64);
        assert(pow2(64) == 0x10000000000000000);
        assert(pow(2, 128) == pow(2, 64) * pow(2, 64));
        assert(pow(2, 64) == 0x10000000000000000);
        assert(pow(2, 128) == 0x10000000000000000 * 0x10000000000000000int);
        assert(pow(2, 128) <= pow(2, e));
        assert(pow(2, e) <= pow(p, e));
        assert(0x10000000000000000 * 0x10000000000000000int > u128::MAX);
    }
}

/// With natural exponents, each prime's power divides into the product, so
/// it is at most the product.
proof fn lemma_factor_at_most_product(primes: Seq<usize>, a: Seq<int>, n: int, i: int)
    requires
        all_at_least_two(primes),
        a.len() == primes.len(),
        0 <= i < n <= a.len(),
        forall|j: int| 0 <= j < n ==> #[trigger] a[j] >= 0,
    ensures
        pow(primes[i] as int, a[i] as nat) <= prime_product(primes, a, n, 1),
    decreases n,
{
    let p = primes[n - 1] as int;
    let q = pow(p, pos_part(1 * a[n - 1]));
    lemma_pow_positive(p, pos_part(1 * a[n - 1]));
    lemma_prime_product_grows(primes, a, 1, n - 1, n - 1);
    let rest = prime_product(primes, a, n - 1, 1);
    if i < n - 1 {
        lemma_factor_at_most_product(primes, a, n - 1, i);
        assert(rest <= rest * q) by (nonlinear_arith)
            requires rest >= 1, q >= 1;
    } else {
        assert(pos_part(1 * a[n - 1]) == a[i] as nat);
        assert(q <= rest * q) by (nonlinear_arith)
            requires rest >= 1, q >= 1;
    }
}

/// Under a single range the gathered exponents only grow.
proof fn lemma_gathered_grows(m: Map<int, int>, cat: Seq<usize>, en: int, i: int, x: int, y: int)
    requires
        1 <= en,
        x <= y,
        delta_at(m, 1) == 1,
        delta_at(m, en + 1) == -1,
        forall|k: int| k != 1 && k != en + 1 ==> #[trigger] delta_at(m, k) == 0,
    ensures
        gathered(m, cat, i, x) <= gathered(m, cat, i, y),
    decreases y - x,
{
    if x < y {
        lemma_gathered_grows(m, cat, en, i, x, y - 1);
        if y > 0 {
            lemma_single_range_multiplicity(m, en, y);
        }
    }
}

/// A new accumulator that multiplies by `n!` and asks for its value gets
/// `n!` over 1 where `n!` fits a `u128`, and an overflow where it does not,
/// for every `n` whose range end stays below `usize::MAX`.
pub proof fn factorial_alone(
    s0: MultMult,
    s1: MultMult,
    s2: MultMult,
    n: usize,
    r1: Result<(), MultError>,
    r2: Result<(u128, u128), MultError>,
)
    requires
        fresh(s0),
        n + 1 < usize::MAX,
        applied(s0, s1, perm_step(s0.pending(), n as int, n as int, MulDiv::Mul), r1),
        value_post(s1, s2, r2),
    ensures
        r1 is Ok,
        r2 is Ok ==> r2 == Ok::<(u128, u128), MultError>((factorial(n as nat) as u128, 1u128)),
        r2 is Err ==> r2 == Err::<(u128, u128), MultError>(MultError::Overflow),
        factorial(n as nat) > u128::MAX ==> r2 is Err,
        factorial(n as nat) <= u128::MAX ==> r2 is Ok,
{
    let en = span(n as int, n as int).1;
    let m = s1.pending();
    assert(r1 is Ok);
    assert(delta_at(m, 1) == 1);
    assert(delta_at(m, en + 1) == -1);
    assert forall|k: int| k != 1 && k != en + 1 implies #[trigger] delta_at(m, k) == 0 by {}
    assert(m.contains_key(en + 1));
    assert(m != Map::<int, int>::empty());
    assert forall|j: int| #[trigger] m.contains_key(j) implies j <= en + 1 by {}
    let top = top_key(m);
    assert(m.contains_key(top) && forall|j: int| #[trigger] m.contains_key(j) ==> j <= top);
    assert(top == en + 1);
    let cat = s2.catalog();
    let len = cat.len() as int;
    let f = if top > s1.frontier() { top } else { s1.frontier() };
    let ex = folded(m, cat, s1.exponents(), top);
    lemma_gathered_factorial(m, cat, f, en, top);
    let g = Seq::new(cat.len(), |i: int| gathered(m, cat, i, top));
    assert forall|i: int| 0 <= i < len implies #[trigger] ex[i] == g[i] by {
        assert(base_exponent(s1.exponents(), i) == 0);
    }
    assert(ex =~= g);
    lemma_no_denominator(cat, ex, len);
    assert(factorial(en as nat) == factorial(n as nat)) by {
        if n == 0 {
            assert(factorial(1) == 1 * factorial(0));
        }
    }
    if factorial(n as nat) <= u128::MAX {
        let bs = based(s1.exponents(), len);
        assert forall|i: int| 0 <= i < len implies #[trigger] ex[i] < 128 by {
            lemma_factor_at_most_product(cat, ex, len, i);
            lemma_small_exponent(cat[i] as int, ex[i] as nat);
        }
        if sweep_overflows(m, cat, bs, top) {
            if exists|y: int| 1 <= y <= top && !fits_i64(#[trigger] multiplicity(m, y)) {
                let y = choose|y: int| 1 <= y <= top && !fits_i64(#[trigger] multiplicity(m, y));
                lemma_single_range_multiplicity(m, en, y);
            } else {
                let (i, y, k) = choose|i: int, y: int, k: int|
                    0 <= i < cat.len() && 1 <= y <= top && 1 <= k <= trial_exponent(cat, i, y)
                        && #[trigger] overflows_after(bs[i] + gathered(m, cat, i, y - 1), k, multiplicity(m, y));
                lemma_single_range_multiplicity(m, en, y);
                lemma_gathered_grows(m, cat, en, i, y, top);
                lemma_gathered_grows(m, cat, en, i, y - 1, top);
                assert(bs[i] == 0);
                assert(gathered(m, cat, i, y) == gathered(m, cat, i, y - 1) + multiplicity(m, y) * trial_exponent(cat, i, y));
                let mu = multiplicity(m, y);
                let t = trial_exponent(cat, i, y) as int;
                let g1 = gathered(m, cat, i, y - 1);
                assert(0 <= k * mu <= mu * t) by (nonlinear_arith)
                    requires mu == 0 || mu == 1, 1 <= k <= t;
                assert(ex[i] == gathered(m, cat, i, top));
                lemma_gathered_factorial(m, cat, f, en, y - 1);
                assert(g1 >= 0);
            }
        }
        assert(!fold_overflows(m, cat, s1.exponents(), top));
    }
}

/// The product of `y^pos_part(sign * multiplicity(m, y))` over `y` in `1..=x`:
/// with `sign == 1` what the pending events multiply in, with `sign == -1`
/// what they divide out.
pub open spec fn range_product(m: Map<int, int>, x: int, sign: int) -> int
    decreases x,
{
    if x <= 0 {
        1
    } else {
        range_product(m, x - 1, sign) * pow(x, pos_part(sign * multiplicity(m, x)))
    }
}

/// The exponents `e0` with the pending map `m` folded in up to `x`.
pub open spec fn folded_upto(m: Map<int, int>, cat: Seq<usize>, e0: Seq<int>, x: int) -> Seq<int> {
    Seq::new(cat.len(), |i: int| e0[i] + gathered(m, cat, i, x))
}

/// The part of `a` of sign `sign`, as natural exponents.
pub open spec fn signed_part(a: Seq<int>, sign: int) -> Seq<int> {
    Seq::new(a.len(), |i: int| pos_part(sign * a[i]) as int)
}

proof fn lemma_sign_split(primes: Seq<usize>, a: Seq<int>, n: int, sign: int)
    requires
        0 <= n <= a.len(),
    ensures
        prime_product(primes, a, n, sign) == prime_product(primes, signed_part(a, sign), n, 1),
    decreases n,
{
    if n > 0 {
        lemma_sign_split(primes, a, n - 1, sign);
        let s = signed_part(a, sign);
        assert(pos_part(1 * s[n - 1]) == pos_part(sign * a[n - 1]));
    }
}

/// `c` copies of the natural exponents `t` multiply to the product of `t`
/// raised to `c`.
proof fn lemma_scaled_product(primes: Seq<usize>, t: Seq<int>, c: nat)
    requires
        t.len() == primes.len(),
        forall|j: int| 0 <= j < t.len() ==> #[trigger] t[j] >= 0,
    ensures
        prime_product(primes, Seq::new(t.len(), |j: int| c * t[j]), t.len() as int, 1)
            == pow(prime_product(primes, t, t.len() as int, 1), c),
    decreases c,
{
    reveal(pow);
    let n = t.len() as int;
    let s = Seq::new(t.len(), |j: int| c * t[j]);
    if c == 0 {
        assert forall|j: int| 0 <= j < s.len() implies #[trigger] s[j] == 0 by {}
        lemma_unit_product(primes, s, n, 1);
    } else {
        lemma_scaled_product(primes, t, (c - 1) as nat);
        let s0 = Seq::new(t.len(), |j: int| (c - 1) as nat * t[j]);
        assert forall|j: int| 0 <= j < n implies #[trigger] s0[j] >= 0 && t[j] >= 0 && s[j] == s0[j] + t[j] by {
            assert(c * t[j] == (c - 1) * t[j] + t[j]) by (nonlinear_arith);
            assert((c - 1) as nat * t[j] >= 0) by (nonlinear_arith)
                requires t[j] >= 0;
        }
        lemma_product_of_sum(primes, s0, t, s, n);
        let q = prime_product(primes, t, n, 1);
        assert(pow(q, c) == q * pow(q, (c - 1) as nat));
        assert(pow(q, (c - 1) as nat) * q == q * pow(q, (c - 1) as nat)) by (nonlinear_arith);
    }
}

/// The fold so far relates the exponents to the starting ones exactly:
/// `ratio(G_x) == ratio(e0) * prod_{y <= x} y^multiplicity(y)`, cross-multiplied.
proof fn lemma_fold_exact(m: Map<int, int>, cat: Seq<usize>, f: int, e0: Seq<int>, x: int)
    requires
        catalog_ok(cat, f),
        e0.len() == cat.len(),
        x <= f,
    ensures
        prime_product(cat, folded_upto(m, cat, e0, x), cat.len() as int, 1) * prime_product(cat, e0, cat.len() as int, -1)
            * range_product(m, x, -1) == prime_product(cat, folded_upto(m, cat, e0, x), cat.len() as int, -1)
            * prime_product(cat, e0, cat.len() as int, 1) * range_product(m, x, 1),
    decreases x,
{
    let n = cat.len() as int;
    let g = folded_upto(m, cat, e0, x);
    if x <= 0 {
        assert(g =~= e0);
        let p = prime_product(cat, e0, n, 1);
        let q = prime_product(cat, e0, n, -1);
        assert(p * q * 1 == q * p * 1) by (nonlinear_arith);
    } else {
        lemma_fold_exact(m, cat, f, e0, x - 1);
        let g0 = folded_upto(m, cat, e0, x - 1);
        let t = multiplicity(m, x);
        let tt = trial_exponents(cat, x);
        lemma_trial_product(cat, x, n);
        lemma_trial_division_complete(cat, x);
        assert forall|j: int| 0 <= j < n implies #[trigger] g[j] == g0[j] + t * tt[j] by {}
        // exponent by exponent, both sides of the step agree
        let up = pos_part(t);
        let down = pos_part(-1 * t);
        let lhs = Seq::new(cat.len(), |j: int| pos_part(g[j]) as int + pos_part(-1 * g0[j]) as int + down * tt[j]);
        let rhs = Seq::new(cat.len(), |j: int| pos_part(-1 * g[j]) as int + pos_part(g0[j]) as int + up * tt[j]);
        assert forall|j: int| 0 <= j < n implies #[trigger] lhs[j] == rhs[j] by {
            let tj = tt[j];
            assert(up * tj - down * tj == t * tj) by (nonlinear_arith)
                requires up - down == t;
        }
        assert(lhs =~= rhs);
        let gp = signed_part(g, 1);
        let gm = signed_part(g, -1);
        let g0p = signed_part(g0, 1);
        let g0m = signed_part(g0, -1);
        let dt = Seq::new(cat.len(), |j: int| down * tt[j]);
        let ut = Seq::new(cat.len(), |j: int| up * tt[j]);
        let l1 = Seq::new(cat.len(), |j: int| gp[j] + g0m[j]);
        let r1 = Seq::new(cat.len(), |j: int| gm[j] + g0p[j]);
        assert forall|j: int| 0 <= j < n implies #[trigger] gp[j] >= 0 && g0m[j] >= 0 && l1[j] == gp[j] + g0m[j] by {}
        assert forall|j: int| 0 <= j < n implies #[trigger] gm[j] >= 0 && g0p[j] >= 0 && r1[j] == gm[j] + g0p[j] by {}
        assert forall|j: int| 0 <= j < n implies #[trigger] tt[j] >= 0 by {}
        assert forall|j: int| 0 <= j < n implies #[trigger] dt[j] >= 0 && ut[j] >= 0 by {
            assert(down * tt[j] >= 0 && up * tt[j] >= 0) by (nonlinear_arith)
                requires down >= 0, up >= 0, tt[j] >= 0;
        }
        assert forall|j: int| 0 <= j < n implies #[trigger] l1[j] >= 0 && dt[j] >= 0 && lhs[j] == l1[j] + dt[j] by {}
        assert forall|j: int| 0 <= j < n implies #[trigger] r1[j] >= 0 && ut[j] >= 0 && rhs[j] == r1[j] + ut[j] by {}
        lemma_product_of_sum(cat, gp, g0m, l1, n);
        lemma_product_of_sum(cat, gm, g0p, r1, n);
        lemma_product_of_sum(cat, l1, dt, lhs, n);
        lemma_product_of_sum(cat, r1, ut, rhs, n);
        lemma_scaled_product(cat, tt, down);
        lemma_scaled_product(cat, tt, up);
        assert(dt =~= Seq::new(tt.len(), |j: int| down * tt[j]));
        assert(ut =~= Seq::new(tt.len(), |j: int| up * tt[j]));
        lemma_sign_split(cat, g, n, 1);
        lemma_sign_split(cat, g, n, -1);
        lemma_sign_split(cat, g0, n, 1);
        lemma_sign_split(cat, g0, n, -1);
        let pt = prime_product(cat, tt, n, 1);
        assert(pt == x);
        let big_a = prime_product(cat, g, n, 1);
        let big_b = prime_product(cat, g, n, -1);
        let big_c = prime_product(cat, g0, n, 1);
        let big_d = prime_product(cat, g0, n, -1);
        let ep = prime_product(cat, e0, n, 1);
        let em = prime_product(cat, e0, n, -1);
        let rp = range_product(m, x - 1, 1);
        let rm = range_product(m, x - 1, -1);
        let xp = pow(x, up);
        let xm = pow(x, down);
        assert(pos_part(1 * t) == up);
        assert(big_a * big_d * xm == big_b * big_c * xp);
        assert(big_c * em * rm == big_d * ep * rp);
        lemma_prime_product_grows(cat, g0, -1, n, n);
        let l = big_a * em * (rm * xm);
        let rr = big_b * ep * (rp * xp);
        assert(big_d * l == (big_a * big_d * xm) * (em * rm)) by (nonlinear_arith)
            requires l == big_a * em * (rm * xm);
        assert(big_d * rr == (big_b * xp) * (big_d * ep * rp)) by (nonlinear_arith)
            requires rr == big_b * ep * (rp * xp);
        assert((big_b * big_c * xp) * (em * rm) == (big_b * xp) * (big_c * em * rm)) by (nonlinear_arith);
        assert(big_d * l == big_d * rr);
        assert(l == rr) by (nonlinear_arith)
            requires big_d * l == big_d * rr, big_d >= 1;
    }
}

/// Asking for the value multiplies the ratio held so far by every integer
/// raised to its net multiplicity in the pending events: with the earlier
/// exponents `e0`, `v.0 / v.1 == ratio(e0) * prod_y y^multiplicity(y)`.
pub proof fn value_is_exact(s: MultMult, s2: MultMult, r: Result<(u128, u128), MultError>)
    requires
        s.wf(),
        value_post(s, s2, r),
        s.cached() is None,
        s.pending() != Map::<int, int>::empty(),
        top_key(s.pending()) != usize::MAX,
        r is Ok,
    ensures
        ({
            let v = r->Ok_0;
            let m = s.pending();
            let top = top_key(m);
            let cat = s2.catalog();
            let e0 = based(s.exponents(), cat.len() as int);
            v.0 * prime_product(cat, e0, cat.len() as int, -1) * range_product(m, top, -1) == v.1 * prime_product(
                cat,
                e0,
                cat.len() as int,
                1,
            ) * range_product(m, top, 1)
        }),
{
    let m = s.pending();
    let top = top_key(m);
    let cat = s2.catalog();
    let f = if top > s.frontier() { top } else { s.frontier() };
    let e0 = based(s.exponents(), cat.len() as int);
    lemma_fold_exact(m, cat, f, e0, top);
    assert(folded_upto(m, cat, e0, top) =~= folded(m, cat, s.exponents(), top));
}

} // verus!
