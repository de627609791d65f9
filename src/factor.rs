//! Folding the pending events into prime exponents.

use vstd::prelude::*;
use crate::accumulator::MultError;
use crate::arith::{lemma_trial_division_complete, residual, strip, times_divides, trial_exponent, all_at_least_two};
use crate::pending::{delta_at, fits_i64, key_index, lemma_points_map_at, points_map, sorted_points};
use crate::ratio::as_ints;
use crate::sieve::catalog_ok;
use vstd::arithmetic::div_mod::{lemma_div_decreases, lemma_fundamental_div_mod};

verus! {

/// Adding `k` times `times` to `e` leaves the range of `i64`.
pub open spec fn overflows_after(e: int, k: int, times: int) -> bool {
    !fits_i64(e + k * times)
}

/// Adds `times` times the exponent of each known prime in `number` to that
/// prime's total, the exponents being found by trial division in order.
pub(crate) fn factrize(primes: &Vec<usize>, exps: &mut Vec<i64>, number: usize, times: i64) -> (r: Result<(), MultError>)
    requires
        all_at_least_two(primes@),
        old(exps)@.len() == primes@.len(),
        number >= 1,
    ensures
        final(exps)@.len() == primes@.len(),
        r is Ok || r == Err::<(), MultError>(MultError::FactorizationIncomplete) ==> forall|i: int|
            0 <= i < primes@.len() ==> #[trigger] final(exps)@[i] as int == old(exps)@[i] as int + times
                * trial_exponent(primes@, i, number as int),
        r is Ok ==> r == Ok::<(), MultError>(()),
        r is Ok ==> forall|i: int, k: int|
            0 <= i < primes@.len() && 1 <= k <= trial_exponent(primes@, i, number as int)
                ==> !#[trigger] overflows_after(old(exps)@[i] as int, k, times as int),
        r is Ok && times != 0 ==> residual(primes@, primes@.len() as int, number as int) == 1,
        r == Err::<(), MultError>(MultError::FactorizationIncomplete) ==> residual(primes@, primes@.len() as int, number as int) != 1,
        r is Err ==> r == Err::<(), MultError>(MultError::FactorizationIncomplete) || r == Err::<(), MultError>(MultError::Overflow),
        r == Err::<(), MultError>(MultError::Overflow) ==> exists|i: int, k: int|
            0 <= i < primes@.len() && 1 <= k <= trial_exponent(primes@, i, number as int)
                && #[trigger] overflows_after(old(exps)@[i] as int, k, times as int),
{
    if times == 0 {
        return Ok(());
    }
    let ghost e0 = exps@;
    let mut n: usize = number;
    let mut i: usize = 0;
    while i < primes.len()
        invariant
            all_at_least_two(primes@),
            e0.len() == primes@.len(),
            e0 == old(exps)@,
            exps@.len() == primes@.len(),
            i <= primes@.len(),
            number >= 1,
            n >= 1,
            n as int == residual(primes@, i as int, number as int),
            forall|j: int| 0 <= j < i ==> #[trigger] exps@[j] as int == e0[j] as int + times
                * trial_exponent(primes@, j, number as int),
            forall|j: int| i <= j < exps@.len() ==> #[trigger] exps@[j] == e0[j],
            forall|j: int, k: int| 0 <= j < i && 1 <= k <= trial_exponent(primes@, j, number as int)
                ==> !#[trigger] overflows_after(e0[j] as int, k, times as int),
        decreases primes@.len() - i,
    {
        let p = primes[i];
        let ghost r0 = n as int;
        let ghost mut k: int = 0;
        while n % p == 0
            invariant
                all_at_least_two(primes@),
                e0.len() == primes@.len(),
                e0 == old(exps)@,
                exps@.len() == primes@.len(),
                i < primes@.len(),
                p == primes@[i as int],
                p >= 2,
                n >= 1,
                r0 == residual(primes@, i as int, number as int),
                k >= 0,
                strip(p as int, n as int) == strip(p as int, r0),
                times_divides(p as int, r0) == k + times_divides(p as int, n as int),
                exps@[i as int] as int == e0[i as int] as int + k * times,
                forall|j: int| 0 <= j < i ==> #[trigger] exps@[j] as int == e0[j] as int + times
                    * trial_exponent(primes@, j, number as int),
                forall|j: int| i < j < exps@.len() ==> #[trigger] exps@[j] == e0[j],
                forall|j: int, k: int| 0 <= j < i && 1 <= k <= trial_exponent(primes@, j, number as int)
                    ==> !#[trigger] overflows_after(e0[j] as int, k, times as int),
                forall|k2: int| 1 <= k2 <= k ==> !#[trigger] overflows_after(e0[i as int] as int, k2, times as int),
            decreases n,
        {
            proof {
                lemma_div_decreases(n as int, p as int);
                lemma_fundamental_div_mod(n as int, p as int);
                assert((n as int) / (p as int) >= 1) by (nonlinear_arith)
                    requires n as int == (p as int) * ((n as int) / (p as int)) + (n as int) % (p as int),
                        (n as int) % (p as int) == 0, n >= 1, p >= 2;
            }
            let e = exps[i];
            match e.checked_add(times) {
                Some(v) => {
                    exps.set(i, v);
                },
                None => {
                    proof {
                        assert(overflows_after(e0[i as int] as int, k + 1, times as int)) by (nonlinear_arith)
                            requires e as int == e0[i as int] as int + k * times, !fits_i64(e as int + times);
                        assert(times_divides(p as int, n as int) == 1 + times_divides(p as int, n as int / p as int));
                        assert(1 <= k + 1 <= trial_exponent(primes@, i as int, number as int));
                        assert(0 <= i < primes@.len() && 1 <= k + 1 <= trial_exponent(primes@, i as int, number as int)
                            && overflows_after(old(exps)@[i as int] as int, k + 1, times as int));
                    }
                    return Err(MultError::Overflow);
                },
            }
            n = n / p;
            proof {
                assert(strip(p as int, r0) == strip(p as int, n as int));
                k = k + 1;
                assert(e0[i as int] as int + (k - 1) * times + times == e0[i as int] as int + k * times) by (nonlinear_arith);
                assert(!overflows_after(e0[i as int] as int, k, times as int));
            }
        }
        proof {
            assert(trial_exponent(primes@, i as int, number as int) == k);
            assert(k * times == times * k) by (nonlinear_arith);
            assert(residual(primes@, i + 1, number as int) == strip(p as int, r0));
        }
        i = i + 1;
    }
    if n != 1 {
        return Err(MultError::FactorizationIncomplete);
    }
    Ok(())
}

/// The net multiplicity of the integer `x`: the sum of the deltas at the
/// breakpoints `1..=x`.
pub open spec fn multiplicity(m: Map<int, int>, x: int) -> int
    decreases x,
{
    if x <= 0 {
        0
    } else {
        multiplicity(m, x - 1) + delta_at(m, x)
    }
}

/// What the integers `1..=x`, each taken with its multiplicity, add to the
/// exponent of `primes[i]`.
pub open spec fn gathered(m: Map<int, int>, primes: Seq<usize>, i: int, x: int) -> int
    decreases x,
{
    if x <= 0 {
        0
    } else {
        gathered(m, primes, i, x - 1) + multiplicity(m, x) * trial_exponent(primes, i, x)
    }
}

/// Folding the pending map `m` up to `top` into exponents `e` overflows an
/// `i64` on the way: a multiplicity does not fit, or a running exponent
/// leaves the range while the factors of some integer are added.
pub open spec fn sweep_overflows(m: Map<int, int>, primes: Seq<usize>, e: Seq<int>, top: int) -> bool {
    ||| exists|y: int| 1 <= y <= top && !fits_i64(#[trigger] multiplicity(m, y))
    ||| exists|i: int, y: int, k: int|
        0 <= i < primes.len() && 1 <= y <= top && 1 <= k <= trial_exponent(primes, i, y)
            && #[trigger] overflows_after(e[i] + gathered(m, primes, i, y - 1), k, multiplicity(m, y))
}

/// Multiplies each integer in `1..=top`, with its multiplicity in the sorted
/// pending pairs `points`, into the exponents of the known primes.
pub(crate) fn sweep(points: &Vec<(usize, i64)>, primes: &Vec<usize>, exps: &mut Vec<i64>, frontier: usize) -> (r: Result<(), MultError>)
    requires
        sorted_points(points@),
        points@.len() > 0,
        catalog_ok(primes@, frontier as int),
        points@.last().0 <= frontier,
        old(exps)@.len() == primes@.len(),
    ensures
        final(exps)@.len() == primes@.len(),
        r is Ok ==> r == Ok::<(), MultError>(()) && forall|i: int| 0 <= i < primes@.len() ==> #[trigger] final(exps)@[i]
            == old(exps)@[i] + gathered(points_map(points@), primes@, i, points@.last().0 as int),
        r is Err <==> sweep_overflows(points_map(points@), primes@, as_ints(old(exps)@), points@.last().0 as int),
        r is Err ==> r == Err::<(), MultError>(MultError::Overflow),
{
    let ghost m = points_map(points@);
    let ghost e0 = exps@;
    let top = points[points.len() - 1].0;
    let mut count: i64 = 0;
    let mut j: usize = 0;
    let mut y: usize = 1;
    while y <= top
        invariant
            sorted_points(points@),
            catalog_ok(primes@, frontier as int),
            m == points_map(points@),
            e0 == old(exps)@,
            e0.len() == primes@.len(),
            exps@.len() == primes@.len(),
            top == points@.last().0,
            top <= frontier,
            1 <= y <= top + 1,
            j <= points@.len(),
            forall|t: int| 0 <= t < j ==> (#[trigger] points@[t]).0 < y,
            forall|t: int| j <= t < points@.len() ==> (#[trigger] points@[t]).0 >= y,
            count == multiplicity(m, y - 1),
            forall|i: int| 0 <= i < primes@.len() ==> #[trigger] exps@[i] == e0[i] + gathered(m, primes@, i, y - 1),
            forall|y2: int| 1 <= y2 < y ==> fits_i64(#[trigger] multiplicity(m, y2)),
            forall|i: int, y2: int, k: int|
                0 <= i < primes@.len() && 1 <= y2 < y && 1 <= k <= trial_exponent(primes@, i, y2)
                    ==> !#[trigger] overflows_after(e0[i] + gathered(m, primes@, i, y2 - 1), k, multiplicity(m, y2)),
        decreases top + 1 - y,
    {
        let ghost old_j = j;
        if j < points.len() && points[j].0 == y {
            proof {
                lemma_points_map_at(points@, j as int);
            }
            match count.checked_add(points[j].1) {
                Some(c) => {
                    count = c;
                },
                None => {
                    assert(multiplicity(m, y as int) == count + points@[j as int].1);
                    assert(1 <= y <= top && !fits_i64(multiplicity(m, y as int)));
                    assert(sweep_overflows(m, primes@, as_ints(e0), top as int));
                    return Err(MultError::Overflow);
                },
            }
            j = j + 1;
        } else {
            proof {
                if m.contains_key(y as int) {
                    let t = key_index(points@, y as int);
                    if t > j {
                        assert(points@[j as int].0 < points@[t].0);
                    }
                }
            }
        }
        assert(count == multiplicity(m, y as int));
        let ghost before = exps@;
        proof {
            lemma_trial_division_complete(primes@, y as int);
        }
        match factrize(primes, exps, y, count) {
            Ok(()) => {},
            Err(e) => {
                proof {
                    let (i, k) = choose|i: int, k: int|
                        0 <= i < primes@.len() && 1 <= k <= trial_exponent(primes@, i, y as int)
                            && #[trigger] overflows_after(before[i] as int, k, count as int);
                    assert(overflows_after(e0[i] + gathered(m, primes@, i, y - 1), k, multiplicity(m, y as int)));
                    assert(as_ints(e0)[i] == e0[i]);
                }
                return Err(MultError::Overflow);
            },
        }
        proof {
            assert forall|i: int, y2: int, k: int|
                0 <= i < primes@.len() && 1 <= y2 < y + 1 && 1 <= k <= trial_exponent(primes@, i, y2)
                    implies !#[trigger] overflows_after(e0[i] + gathered(m, primes@, i, y2 - 1), k, multiplicity(m, y2)) by {
                if y2 == y {
                    assert(before[i] == e0[i] + gathered(m, primes@, i, y2 - 1));
                    assert(!overflows_after(before[i] as int, k, count as int));
                }
            }
            assert forall|t: int| j <= t < points@.len() implies (#[trigger] points@[t]).0 >= y + 1 by {
                if t > old_j {
                    assert(points@[old_j as int].0 < points@[t].0);
                }
            }
        }
        y = y + 1;
    }
    proof {
        if sweep_overflows(m, primes@, as_ints(e0), top as int) {
            if exists|y2: int| 1 <= y2 <= top && !fits_i64(#[trigger] multiplicity(m, y2)) {
                let y2 = choose|y2: int| 1 <= y2 <= top && !fits_i64(#[trigger] multiplicity(m, y2));
                assert(fits_i64(multiplicity(m, y2)));
            } else {
                let (i, y2, k) = choose|i: int, y2: int, k: int|
                    0 <= i < primes@.len() && 1 <= y2 <= top && 1 <= k <= trial_exponent(primes@, i, y2)
                        && #[trigger] overflows_after(as_ints(e0)[i] + gathered(m, primes@, i, y2 - 1), k, multiplicity(m, y2));
                assert(as_ints(e0)[i] == e0[i]);
                assert(!overflows_after(e0[i] + gathered(m, primes@, i, y2 - 1), k, multiplicity(m, y2)));
            }
        }
    }
    Ok(())
}

} // verus!
