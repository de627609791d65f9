//! The accumulator: records multiply/divide events and folds them into prime
//! exponents when its value is asked for.

use vstd::prelude::*;
use crate::factor::{gathered, sweep, sweep_overflows};
use crate::pending::{bump_point, bumped, delta_at, find_point, fits_i64, key_index, lemma_points_map_at, points_map, sorted_points};
use crate::ratio::{as_ints, mul_primes, prime_product};
use crate::sieve::{catalog_ok, extends_catalog, trial_is_prime};
use crate::arith::is_prime;

verus! {

/// Whether a range of integers is multiplied in or divided out.
pub enum MulDiv {
    Mul,
    Div,
}

/// What can go wrong.
#[derive(Debug, Clone, Copy, PartialEq, Eq, Structural)]
pub enum MultError {
    /// A permutation or combination with `left < right`.
    InvalidRange,
    /// The value was asked of an accumulator that never recorded anything.
    EmptyAccumulator,
    /// A factor was left over after trial division by every known prime.
    /// The sieve is extended before factorising, so this never happens.
    FactorizationIncomplete,
    /// A breakpoint, a count, an exponent or the final ratio does not fit
    /// its machine integer.
    Overflow,
}

/// The integer range `[start, end]` multiplied by the permutation
/// `left * (left - 1) * ... * (left - right + 1)`; the empty product is `[1, 1]`.
pub open spec fn span(left: int, right: int) -> (int, int) {
    if left == 0 || right == 0 {
        (1, 1)
    } else {
        (left - right + 1, left)
    }
}

/// The pending map after recording the range `[start, end]` in `mode`, or
/// `None` where a breakpoint or a delta would not fit.
pub open spec fn record(m: Map<int, int>, start: int, end: int, mode: MulDiv) -> Option<Map<int, int>> {
    let (up, down) = match mode {
        MulDiv::Mul => (start, end + 1),
        MulDiv::Div => (end + 1, start),
    };
    if end + 1 > usize::MAX || !fits_i64(delta_at(m, up) + 1) || !fits_i64(delta_at(m, down) - 1) {
        None
    } else {
        Some(bumped(bumped(m, up, 1), down, -1))
    }
}

/// A permutation `left, right` recorded in `mode`: the new pending map, or
/// the error that rejects it.
pub open spec fn perm_outcome(m: Map<int, int>, left: int, right: int, mode: MulDiv) -> Result<Map<int, int>, MultError> {
    if left < right {
        Err(MultError::InvalidRange)
    } else {
        match record(m, span(left, right).0, span(left, right).1, mode) {
            Some(m2) => Ok(m2),
            None => Err(MultError::Overflow),
        }
    }
}

/// What one recorded permutation returns, and the pending map it leaves
/// (`None`: the accumulator is left as it was).
pub open spec fn perm_step(m: Map<int, int>, left: int, right: int, mode: MulDiv) -> (Result<(), MultError>, Option<Map<int, int>>) {
    match perm_outcome(m, left, right, mode) {
        Ok(m2) => (Ok(()), Some(m2)),
        Err(e) => (Err(e), None),
    }
}

/// A combination: the permutation `left, right` in `first`, then `right!` in
/// `second`. Where the second half overflows, the first stays recorded.
pub open spec fn comb_step(m: Map<int, int>, left: int, right: int, first: MulDiv, second: MulDiv) -> (Result<(), MultError>, Option<Map<int, int>>) {
    match perm_outcome(m, left, right, first) {
        Err(e) => (Err(e), None),
        Ok(m1) => match perm_outcome(m1, right, right, second) {
            Ok(m2) => (Ok(()), Some(m2)),
            Err(e) => (Err(e), Some(m1)),
        },
    }
}

/// `new` is `old` after a mutating call with outcome `out`, which returned `r`.
pub open spec fn applied(old: MultMult, new: MultMult, out: (Result<(), MultError>, Option<Map<int, int>>), r: Result<(), MultError>) -> bool {
    &&& new.wf()
    &&& r == out.0
    &&& new.catalog() == old.catalog()
    &&& new.exponents() == old.exponents()
    &&& new.frontier() == old.frontier()
    &&& match out.1 {
        Some(m) => new.pending() == m && new.cached() is None,
        None => new.pending() == old.pending() && new.cached() == old.cached(),
    }
}

/// The largest breakpoint of a pending map.
pub open spec fn top_key(m: Map<int, int>) -> int {
    choose|k: int| m.contains_key(k) && forall|j: int| #[trigger] m.contains_key(j) ==> j <= k
}

/// The exponent that `e0` gives the `i`-th prime; 0 for a prime found since.
pub open spec fn base_exponent(e0: Seq<i64>, i: int) -> int {
    if 0 <= i < e0.len() {
        e0[i] as int
    } else {
        0
    }
}

/// The exponents of `primes` once the pending map `m`, up to `top`, is folded
/// into the exponents `e0`.
pub open spec fn folded(m: Map<int, int>, primes: Seq<usize>, e0: Seq<i64>, top: int) -> Seq<int> {
    Seq::new(primes.len(), |i: int| base_exponent(e0, i) + gathered(m, primes, i, top))
}

/// The exponents `e0` gives the first `n` primes, 0 for those found since.
pub open spec fn based(e0: Seq<i64>, n: int) -> Seq<int> {
    Seq::new(n as nat, |i: int| base_exponent(e0, i))
}

/// Folding `m` up to `top` into `e0` over `primes` cannot be done in machine
/// integers: a running count or exponent leaves `i64`, or the numerator or the
/// denominator exceeds `u128::MAX`.
pub open spec fn fold_overflows(m: Map<int, int>, primes: Seq<usize>, e0: Seq<i64>, top: int) -> bool {
    let n = primes.len() as int;
    let ex = folded(m, primes, e0, top);
    ||| sweep_overflows(m, primes, based(e0, n), top)
    ||| prime_product(primes, ex, n, 1) > u128::MAX
    ||| prime_product(primes, ex, n, -1) > u128::MAX
}

/// `new` is `old` after a `value` call that folded the pending events into
/// the exponents, and returned `r`.
pub open spec fn folds(old: MultMult, new: MultMult, r: Result<(u128, u128), MultError>) -> bool {
    let top = top_key(old.pending());
    let f = if top > old.frontier() { top } else { old.frontier() };
    let ex = folded(old.pending(), new.catalog(), old.exponents(), top);
    let n = new.catalog().len() as int;
    &&& new.frontier() == f
    &&& catalog_ok(new.catalog(), f)
    &&& new.catalog().subrange(0, old.catalog().len() as int) == old.catalog()
    &&& (r is Ok <==> !fold_overflows(old.pending(), new.catalog(), old.exponents(), top))
    &&& match r {
        Ok(v) => {
            &&& new.pending() == Map::<int, int>::empty()
            &&& new.cached() == Some(v)
            &&& as_ints(new.exponents()) == ex
            &&& v.0 == prime_product(new.catalog(), ex, n, 1)
            &&& v.1 == prime_product(new.catalog(), ex, n, -1)
        },
        Err(e) => {
            &&& e == MultError::Overflow
            &&& new.pending() == old.pending()
            &&& new.cached() is None
            &&& as_ints(new.exponents()) == based(old.exponents(), n)
        },
    }
}

/// `new` is `old` after a `value` call that returned `r`: the cached ratio
/// where there is one; an error where nothing was recorded, or where the
/// largest breakpoint is `usize::MAX`; else the pending events folded in.
pub open spec fn value_post(old: MultMult, new: MultMult, r: Result<(u128, u128), MultError>) -> bool {
    &&& new.wf()
    &&& match old.cached() {
        Some(v) => r == Ok::<(u128, u128), MultError>(v) && new == old,
        None => if old.pending() == Map::<int, int>::empty() {
            r == Err::<(u128, u128), MultError>(MultError::EmptyAccumulator) && new == old
        } else if top_key(old.pending()) == usize::MAX {
            r == Err::<(u128, u128), MultError>(MultError::Overflow) && new == old
        } else {
            folds(old, new, r)
        },
    }
}

/// A newly made accumulator: nothing pending, nothing cached, and the prime
/// 2 known, at exponent 0.
pub open spec fn fresh(s: MultMult) -> bool {
    &&& s.wf()
    &&& s.pending() == Map::<int, int>::empty()
    &&& s.cached() is None
    &&& s.catalog() == seq![2usize]
    &&& s.exponents() == seq![0i64]
    &&& s.frontier() == 2
}

/// Two accumulators that no call can tell apart.
pub open spec fn same_view(s: MultMult, t: MultMult) -> bool {
    &&& s.pending() == t.pending()
    &&& s.catalog() == t.catalog()
    &&& s.exponents() == t.exponents()
    &&& s.frontier() == t.frontier()
    &&& s.cached() == t.cached()
}

/// Accumulates a product of factorials, permutations and combinations and
/// their inverses. Not thread-safe: shared use needs outside synchronisation.
pub struct MultMult {
    points: Vec<(usize, i64)>,
    value: Option<(u128, u128)>,
    primes: Vec<usize>,
    exps: Vec<i64>,
    max_number: usize,
}

impl MultMult {
    /// The pending events, breakpoint to delta.
    pub closed spec fn pending(&self) -> Map<int, int> {
        points_map(self.points@)
    }

    /// The known primes, ascending.
    pub closed spec fn catalog(&self) -> Seq<usize> {
        self.primes@
    }

    /// The exponent of each known prime, in the order of `catalog`.
    pub closed spec fn exponents(&self) -> Seq<i64> {
        self.exps@
    }

    /// The largest integer whose primality is known.
    pub closed spec fn frontier(&self) -> int {
        self.max_number as int
    }

    /// The cached ratio `(numerator, denominator)`, if any.
    pub closed spec fn cached(&self) -> Option<(u128, u128)> {
        self.value
    }

    pub closed spec fn wf(&self) -> bool {
        &&& sorted_points(self.points@)
        &&& catalog_ok(self.primes@, self.max_number as int)
        &&& self.exps@.len() == self.primes@.len()
        &&& self.value is Some ==> self.points@.len() == 0
    }

    pub fn new() -> (r: Self)
        ensures
            fresh(r),
    {
        let mut primes: Vec<usize> = Vec::new();
        primes.push(2);
        let mut exps: Vec<i64> = Vec::new();
        exps.push(0);
        let r = MultMult { points: Vec::new(), value: None, primes, exps, max_number: 2 };
        proof {
            assert(points_map(r.points@) =~= Map::<int, int>::empty());
            assert(is_prime(2));
            assert forall|d: int| 2 <= d <= 2 && is_prime(d) implies exists|j: int|
                0 <= j < r.primes@.len() && r.primes@[j] == d by {
                assert(r.primes@[0] == d);
            }
        }
        r
    }

    /// The ratio `(numerator, denominator)` of the product recorded so far,
    /// in lowest terms over the known primes. The exponents persist: each
    /// call folds in only what was recorded since the last one.
    pub fn value(&mut self) -> (r: Result<(u128, u128), MultError>)
        requires
            old(self).wf(),
        ensures
            value_post(*old(self), *final(self), r),
    {
        if let Some(v) = self.value {
            return Ok(v);
        }
        if self.points.len() == 0 {
            assert(self.pending() =~= Map::<int, int>::empty());
            return Err(MultError::EmptyAccumulator);
        }
        let ghost s = self.points@;
        let ghost m = self.pending();
        let top = self.points[self.points.len() - 1].0;
        proof {
            lemma_points_map_at(s, s.len() - 1);
            assert(m.contains_key(top as int));
            assert(m != Map::<int, int>::empty());
            assert forall|j: int| #[trigger] m.contains_key(j) implies j <= top by {
                let t = key_index(s, j);
                if t < s.len() - 1 {
                    assert(s[t].0 < s[s.len() - 1].0);
                }
            }
            let k = top_key(m);
            assert(m.contains_key(k) && forall|j: int| #[trigger] m.contains_key(j) ==> j <= k);
            assert(k == top);
        }
        if top == usize::MAX {
            return Err(MultError::Overflow);
        }
        let ghost p0 = self.primes@;
        let ghost e0 = self.exps@;
        self.expand_primes(top);
        let ghost e1 = self.exps@;
        let mut exps = self.exps.clone();
        assert(exps@ =~= self.exps@);
        assert(as_ints(e1) =~= based(e0, e1.len() as int));
        match sweep(&self.points, &self.primes, &mut exps, self.max_number) {
            Ok(()) => {},
            Err(e) => {
                assert(self.primes@.subrange(0, p0.len() as int) == p0);
                assert(fold_overflows(m, self.primes@, e0, top as int));
                return Err(e);
            },
        }
        let ghost ex = folded(m, self.primes@, e0, top as int);
        assert(as_ints(exps@) =~= ex);
        assert(!sweep_overflows(m, self.primes@, based(e0, e1.len() as int), top as int));
        match mul_primes(&self.primes, &exps) {
            Some(v) => {
                self.exps = exps;
                self.points = Vec::new();
                self.value = Some(v);
                assert(self.pending() =~= Map::<int, int>::empty());
                Ok(v)
            },
            None => Err(MultError::Overflow),
        }
    }

    /// Extends the catalog of primes up to `n`; new primes start at exponent 0.
    fn expand_primes(&mut self, n: usize)
        requires
            old(self).wf(),
            n < usize::MAX,
        ensures
            final(self).wf(),
            final(self).points == old(self).points,
            final(self).value == old(self).value,
            final(self).frontier() == if n > old(self).frontier() { n as int } else { old(self).frontier() },
            extends_catalog(old(self).primes@, old(self).exps@, final(self).primes@, final(self).exps@),
    {
        if n <= self.max_number {
            assert(self.primes@.subrange(0, self.primes@.len() as int) =~= self.primes@);
            return;
        }
        let ghost p0 = self.primes@;
        assert(self.primes@.subrange(0, p0.len() as int) =~= p0);
        let ghost e0 = self.exps@;
        let mut number: usize = self.max_number + 1;
        while number <= n
            invariant
                self.wf(),
                self.points == old(self).points,
                self.value == old(self).value,
                self.max_number == number - 1,
                old(self).max_number < number <= n + 1,
                n < usize::MAX,
                e0.len() == p0.len(),
                extends_catalog(p0, e0, self.primes@, self.exps@),
            decreases n + 1 - number,
        {
            if trial_is_prime(&self.primes, number) {
                let ghost p1 = self.primes@;
                let ghost e1 = self.exps@;
                self.primes.push(number);
                self.exps.push(0);
                proof {
                    let p2 = self.primes@;
                    assert(p2[p1.len() as int] == number);
                    assert forall|d: int| 2 <= d <= number && is_prime(d) implies exists|j: int|
                        0 <= j < p2.len() && p2[j] == d by {
                        if d < number {
                            let j = choose|j: int| 0 <= j < p1.len() && p1[j] == d;
                            assert(p2[j] == d);
                        } else {
                            assert(p2[p1.len() as int] == d);
                        }
                    }
                    assert(forall|i: int| 0 <= i < p1.len() ==> p2[i] == #[trigger] p1[i]);
                    assert(p2.subrange(0, p0.len() as int) =~= p1.subrange(0, p0.len() as int));
                    let e2 = self.exps@;
                    assert(forall|i: int| 0 <= i < e1.len() ==> #[trigger] e2[i] == e1[i]);
                    assert(e2[e1.len() as int] == 0);
                }
            } else {
                proof {
                    let p1 = self.primes@;
                    assert forall|d: int| 2 <= d <= number && is_prime(d) implies exists|j: int|
                        0 <= j < p1.len() && p1[j] == d by {
                        if d == number {
                            assert(false);
                        }
                    }
                }
            }
            self.max_number = number;
            number = number + 1;
        }
    }

    /// Records the range `[start, end]`, multiplied in or divided out.
    fn muldiv(&mut self, start: usize, end: usize, mode: MulDiv) -> (r: Result<(), MultError>)
        requires
            old(self).wf(),
            1 <= start <= end,
        ensures
            final(self).wf(),
            final(self).catalog() == old(self).catalog(),
            final(self).exponents() == old(self).exponents(),
            final(self).frontier() == old(self).frontier(),
            match record(old(self).pending(), start as int, end as int, mode) {
                Some(m) => r == Ok::<(), MultError>(()) && final(self).pending() == m && final(self).cached() is None,
                None => r == Err::<(), MultError>(MultError::Overflow) && final(self).pending() == old(self).pending()
                    && final(self).cached() == old(self).cached(),
            },
    {
        if end == usize::MAX {
            return Err(MultError::Overflow);
        }
        let (up, down) = match mode {
            MulDiv::Mul => (start, end + 1),
            MulDiv::Div => (end + 1, start),
        };
        let (iu, fu) = find_point(&self.points, up);
        let du: i64 = if fu { self.points[iu].1 } else { 0 };
        let (id, fd) = find_point(&self.points, down);
        let dd: i64 = if fd { self.points[id].1 } else { 0 };
        if du == i64::MAX || dd == i64::MIN {
            return Err(MultError::Overflow);
        }
        bump_point(&mut self.points, up, 1);
        bump_point(&mut self.points, down, -1);
        self.value = None;
        Ok(())
    }

    /// Checks `left >= right` and records the permutation's range.
    fn record_perm(&mut self, left: usize, right: usize, mode: MulDiv) -> (r: Result<(), MultError>)
        requires
            old(self).wf(),
        ensures
            applied(*old(self), *final(self), perm_step(old(self).pending(), left as int, right as int, mode), r),
    {
        let (start, end) = perm(left, right)?;
        self.muldiv(start, end, mode)
    }

    /// Multiplies by `number!`.
    pub fn mul_fact(&mut self, number: usize) -> (r: Result<(), MultError>)
        requires
            old(self).wf(),
        ensures
            applied(*old(self), *final(self), perm_step(old(self).pending(), number as int, number as int, MulDiv::Mul), r),
    {
        self.record_perm(number, number, MulDiv::Mul)
    }

    /// Divides by `number!`.
    pub fn div_fact(&mut self, number: usize) -> (r: Result<(), MultError>)
        requires
            old(self).wf(),
        ensures
            applied(*old(self), *final(self), perm_step(old(self).pending(), number as int, number as int, MulDiv::Div), r),
    {
        self.record_perm(number, number, MulDiv::Div)
    }

    /// Multiplies by `left * (left - 1) * ... * (left - right + 1)`.
    pub fn mul_perm(&mut self, left: usize, right: usize) -> (r: Result<(), MultError>)
        requires
            old(self).wf(),
        ensures
            applied(*old(self), *final(self), perm_step(old(self).pending(), left as int, right as int, MulDiv::Mul), r),
    {
        self.record_perm(left, right, MulDiv::Mul)
    }

    /// Divides by `left * (left - 1) * ... * (left - right + 1)`.
    pub fn div_perm(&mut self, left: usize, right: usize) -> (r: Result<(), MultError>)
        requires
            old(self).wf(),
        ensures
            applied(*old(self), *final(self), perm_step(old(self).pending(), left as int, right as int, MulDiv::Div), r),
    {
        self.record_perm(left, right, MulDiv::Div)
    }

    /// Multiplies by the binomial coefficient `C(left, right)`.
    pub fn mul_comb(&mut self, left: usize, right: usize) -> (r: Result<(), MultError>)
        requires
            old(self).wf(),
        ensures
            applied(*old(self), *final(self), comb_step(old(self).pending(), left as int, right as int, MulDiv::Mul, MulDiv::Div), r),
    {
        self.record_perm(left, right, MulDiv::Mul)?;
        self.record_perm(right, right, MulDiv::Div)
    }

    /// Divides by the binomial coefficient `C(left, right)`.
    pub fn div_comb(&mut self, left: usize, right: usize) -> (r: Result<(), MultError>)
        requires
            old(self).wf(),
        ensures
            applied(*old(self), *final(self), comb_step(old(self).pending(), left as int, right as int, MulDiv::Div, MulDiv::Mul), r),
    {
        self.record_perm(left, right, MulDiv::Div)?;
        self.record_perm(right, right, MulDiv::Mul)
    }
}

/// The integer range `[start, end]` whose product is the permutation
/// `left * (left - 1) * ... * (left - right + 1)`; `[1, 1]` for the empty
/// product. Fails where `left < right`.
pub fn perm(left: usize, right: usize) -> (r: Result<(usize, usize), MultError>)
    ensures
        left < right ==> r == Err::<(usize, usize), MultError>(MultError::InvalidRange),
        left >= right ==> (r matches Ok(v) && span(left as int, right as int) == (v.0 as int, v.1 as int)),
        r matches Ok(v) ==> 1 <= v.0 <= v.1,
{
    if left < right {
        return Err(MultError::InvalidRange);
    }
    if left == 0 || right == 0 {
        Ok((1, 1))
    } else {
        Ok((left - right + 1, left))
    }
}

} // verus!
