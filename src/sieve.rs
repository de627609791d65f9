//! The catalog of known primes, grown by trial division.

use vstd::prelude::*;
use crate::arith::{all_at_least_two, is_prime, lemma_prime_divisor, lemma_small_prime_divisor};

verus! {

/// Every known prime is at least 2, they ascend, 2 is first, none exceeds the
/// frontier, and every prime up to the frontier is known.
pub open spec fn catalog_ok(primes: Seq<usize>, frontier: int) -> bool {
    &&& primes.len() >= 1
    &&& primes[0] == 2
    &&& frontier >= 2
    &&& frontier < usize::MAX
    &&& all_at_least_two(primes)
    &&& forall|i: int, j: int| 0 <= i < j < primes.len() ==> (#[trigger] primes[i]) < (#[trigger] primes[j])
    &&& forall|i: int| 0 <= i < primes.len() ==> #[trigger] primes[i] <= frontier
    &&& forall|i: int| 0 <= i < primes.len() ==> is_prime(#[trigger] primes[i] as int)
    &&& forall|d: int| 2 <= d <= frontier && is_prime(d) ==> exists|j: int| 0 <= j < primes.len() && primes[j] == d
}

/// `primes`, `exps` are `p0`, `e0` with more primes appended, each at
/// exponent 0.
pub open spec fn extends_catalog(p0: Seq<usize>, e0: Seq<i64>, primes: Seq<usize>, exps: Seq<i64>) -> bool {
    &&& primes.len() >= p0.len()
    &&& exps.len() == primes.len()
    &&& primes.subrange(0, p0.len() as int) == p0
    &&& forall|i: int| 0 <= i < e0.len() ==> exps[i] == #[trigger] e0[i]
    &&& forall|i: int| e0.len() <= i < exps.len() ==> #[trigger] exps[i] == 0
}

/// Decides by trial division whether `number`, just past the frontier, is prime.
pub(crate) fn trial_is_prime(primes: &Vec<usize>, number: usize) -> (r: bool)
    requires
        catalog_ok(primes@, number - 1),
    ensures
        r == is_prime(number as int),
{
    let mut i: usize = 0;
    while i < primes.len()
        invariant
            catalog_ok(primes@, number - 1),
            i <= primes@.len(),
            forall|j: int| 0 <= j < i ==> (number as int) % (#[trigger] primes@[j] as int) != 0,
            forall|j: int| 0 <= j < i ==> (#[trigger] primes@[j] as int) * (primes@[j] as int) < number,
        decreases primes@.len() - i,
    {
        let p = primes[i];
        if number % p == 0 {
            return false;
        }
        assert((p as int) * (p as int) <= u128::MAX) by (nonlinear_arith)
            requires 0 <= p <= usize::MAX, usize::MAX <= u64::MAX;
        if (p as u128) * (p as u128) >= number as u128 {
            proof {
                if !is_prime(number as int) {
                    let d = lemma_small_prime_divisor(number as int);
                    assert(d < number) by (nonlinear_arith)
                        requires d * d <= number, d >= 2;
                    let j = choose|j: int| 0 <= j < primes@.len() && primes@[j] == d;
                    if j > i {
                        assert(primes@[i as int] < primes@[j as int]);
                        assert((p as int) * (p as int) < d * d) by (nonlinear_arith)
                            requires 2 <= p < d;
                    } else if j < i {
                        assert((number as int) % (primes@[j] as int) != 0);
                    }
                }
            }
            return true;
        }
        i = i + 1;
    }
    proof {
        if !is_prime(number as int) {
            let d = lemma_prime_divisor(number as int);
            let j = choose|j: int| 0 <= j < primes@.len() && primes@[j] == d;
            assert((number as int) % (primes@[j] as int) != 0);
        }
    }
    true
}

} // verus!
