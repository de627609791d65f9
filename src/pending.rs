//! The pending events: a difference map from breakpoint to signed delta, held
//! as a vector of `(breakpoint, delta)` pairs sorted by breakpoint.

use vstd::prelude::*;

verus! {

/// `x` fits in an `i64`.
pub open spec fn fits_i64(x: int) -> bool {
    i64::MIN <= x <= i64::MAX
}

/// The delta recorded at breakpoint `k` (zero where none is).
pub open spec fn delta_at(m: Map<int, int>, k: int) -> int {
    if m.contains_key(k) {
        m[k]
    } else {
        0
    }
}

/// `m` with `d` added to the delta at `k`.
pub open spec fn bumped(m: Map<int, int>, k: int, d: int) -> Map<int, int> {
    m.insert(k, delta_at(m, k) + d)
}

/// Breakpoints strictly increasing, each at least 1.
pub open spec fn sorted_points(s: Seq<(usize, i64)>) -> bool {
    &&& forall|i: int, j: int| 0 <= i < j < s.len() ==> (#[trigger] s[i]).0 < (#[trigger] s[j]).0
    &&& forall|i: int| 0 <= i < s.len() ==> (#[trigger] s[i]).0 >= 1
}

pub open spec fn has_key(s: Seq<(usize, i64)>, k: int) -> bool {
    exists|i: int| 0 <= i < s.len() && (#[trigger] s[i]).0 == k
}

pub open spec fn key_index(s: Seq<(usize, i64)>, k: int) -> int {
    choose|i: int| 0 <= i < s.len() && (#[trigger] s[i]).0 == k
}

/// The map that a sorted vector of pairs stands for.
pub open spec fn points_map(s: Seq<(usize, i64)>) -> Map<int, int> {
    Map::new(|k: int| has_key(s, k), |k: int| s[key_index(s, k)].1 as int)
}

pub proof fn lemma_points_map_at(s: Seq<(usize, i64)>, i: int)
    requires
        sorted_points(s),
        0 <= i < s.len(),
    ensures
        points_map(s).contains_key(s[i].0 as int),
        points_map(s)[s[i].0 as int] == s[i].1 as int,
        delta_at(points_map(s), s[i].0 as int) == s[i].1 as int,
{
    let k = s[i].0 as int;
    assert(has_key(s, k));
    let j = key_index(s, k);
    if j != i {
        if j < i {
            assert(s[j].0 < s[i].0);
        } else {
            assert(s[i].0 < s[j].0);
        }
    }
}

/// Finds where breakpoint `k` stands, or would stand.
pub fn find_point(points: &Vec<(usize, i64)>, k: usize) -> (res: (usize, bool))
    requires
        sorted_points(points@),
    ensures
        res.0 <= points@.len(),
        forall|j: int| 0 <= j < res.0 ==> (#[trigger] points@[j]).0 < k,
        res.1 <==> (res.0 < points@.len() && points@[res.0 as int].0 == k),
        !res.1 ==> forall|j: int| res.0 <= j < points@.len() ==> (#[trigger] points@[j]).0 > k,
        res.1 ==> delta_at(points_map(points@), k as int) == points@[res.0 as int].1 as int,
        !res.1 ==> !points_map(points@).contains_key(k as int),
{
    let mut i: usize = 0;
    while i < points.len() && points[i].0 < k
        invariant
            sorted_points(points@),
            i <= points@.len(),
            forall|j: int| 0 <= j < i ==> (#[trigger] points@[j]).0 < k,
        decreases points@.len() - i,
    {
        i = i + 1;
    }
    let found = i < points.len() && points[i].0 == k;
    if found {
        proof {
            lemma_points_map_at(points@, i as int);
        }
    } else {
        assert forall|j: int| i <= j < points@.len() implies (#[trigger] points@[j]).0 > k by {
            if j > i {
                assert(points@[i as int].0 < points@[j].0);
            }
        }
        proof {
            if points_map(points@).contains_key(k as int) {
                let j = key_index(points@, k as int);
                assert(points@[j].0 == k);
            }
        }
    }
    (i, found)
}

/// Adds `d` to the delta at breakpoint `k`.
pub fn bump_point(points: &mut Vec<(usize, i64)>, k: usize, d: i64)
    requires
        sorted_points(old(points)@),
        k >= 1,
        fits_i64(delta_at(points_map(old(points)@), k as int) + d),
    ensures
        sorted_points(final(points)@),
        points_map(final(points)@) == bumped(points_map(old(points)@), k as int, d as int),
{
    let ghost s = points@;
    let (i, found) = find_point(points, k);
    if found {
        let nd = points[i].1 + d;
        points.set(i, (k, nd));
        let ghost t = points@;
        assert(sorted_points(t)) by {
            assert forall|a: int, b: int| 0 <= a < b < t.len() implies (#[trigger] t[a]).0 < (#[trigger] t[b]).0 by {
                assert(s[a].0 < s[b].0);
            }
        }
        let ghost m = bumped(points_map(s), k as int, d as int);
        assert forall|x: int| #[trigger] m.contains_key(x) <==> points_map(t).contains_key(x) by {
            if has_key(s, x) {
                let j = key_index(s, x);
                assert(t[j].0 == x);
            }
            if has_key(t, x) {
                let j = key_index(t, x);
                assert(s[j].0 == x);
            }
        }
        assert forall|x: int| #[trigger] m.contains_key(x) implies m[x] == points_map(t)[x] by {
            let j = key_index(t, x);
            lemma_points_map_at(t, j);
            if j != i {
                lemma_points_map_at(s, j);
            }
        }
        assert(points_map(t) =~= m);
    } else {
        points.insert(i, (k, d));
        let ghost t = points@;
        assert(sorted_points(t)) by {
            assert forall|a: int, b: int| 0 <= a < b < t.len() implies (#[trigger] t[a]).0 < (#[trigger] t[b]).0 by {
                if b < i {
                    assert(s[a].0 < s[b].0);
                } else if a > i {
                    assert(s[a - 1].0 < s[b - 1].0);
                } else if a == i {
                    assert(t[b] == s[b - 1]);
                } else {
                    assert(t[a] == s[a]);
                }
            }
            assert forall|a: int| 0 <= a < t.len() implies (#[trigger] t[a]).0 >= 1 by {
                if a < i {
                    assert(t[a] == s[a]);
                } else if a > i {
                    assert(t[a] == s[a - 1]);
                }
            }
        }
        let ghost m = bumped(points_map(s), k as int, d as int);
        assert forall|x: int| #[trigger] m.contains_key(x) <==> points_map(t).contains_key(x) by {
            if has_key(s, x) {
                let j = key_index(s, x);
                if j < i {
                    assert(t[j].0 == x);
                } else {
                    assert(t[j + 1].0 == x);
                }
            }
            if x == k {
                assert(t[i as int].0 == x);
            }
            if has_key(t, x) {
                let j = key_index(t, x);
                if j < i {
                    assert(s[j].0 == x);
                } else if j > i {
                    assert(s[j - 1].0 == x);
                }
            }
        }
        assert forall|x: int| #[trigger] m.contains_key(x) implies m[x] == points_map(t)[x] by {
            let j = key_index(t, x);
            lemma_points_map_at(t, j);
            if j < i {
                lemma_points_map_at(s, j);
            } else if j > i {
                lemma_points_map_at(s, j - 1);
            }
        }
        assert(points_map(t) =~= m);
    }
}

} // verus!
