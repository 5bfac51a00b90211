//! Adding an element matrix into the global matrix through the element's DOF map.
//!
//! The entry type and its addition are left to the caller (the element
//! matrices of this project are floating-point); the index logic is verified.

use vstd::prelude::*;
use vstd::arithmetic::div_mod::lemma_fundamental_div_mod_converse;

verus! {

/// Entry `(a, b)` of a matrix stored as a sequence of rows.
pub open spec fn entry<T>(m: Seq<Vec<T>>, a: int, b: int) -> T {
    m[a]@[b]
}

/// `m2` has the same number of rows as `m1`, and each row the same length.
pub open spec fn same_shape<T>(m1: Seq<Vec<T>>, m2: Seq<Vec<T>>) -> bool {
    &&& m2.len() == m1.len()
    &&& forall|a: int| 0 <= a < m1.len() ==> #[trigger] m2[a]@.len() == m1[a]@.len()
}

/// Entry `(a, b)` is one that the DOF map `map` reaches: both `a` and `b` are in `map`.
pub open spec fn reached(map: Seq<usize>, a: int, b: int) -> bool {
    (exists|r: int| 0 <= r < map.len() && map[r] as int == a) && (exists|c: int|
        0 <= c < map.len() && map[c] as int == b)
}

/// `ke` is a square `n` by `n` matrix.
pub open spec fn is_square<T>(ke: Seq<Vec<T>>, n: nat) -> bool {
    &&& ke.len() == n
    &&& forall|r: int| 0 <= r < n ==> #[trigger] ke[r]@.len() == n
}

/// Every entry `(map[r], map[c])` lies inside `kk`.
pub open spec fn map_fits<T>(kk: Seq<Vec<T>>, map: Seq<usize>) -> bool {
    &&& forall|r: int| 0 <= r < map.len() ==> #[trigger] map[r] < kk.len()
    &&& forall|r: int, c: int|
        #![trigger kk[map[r] as int]@.len(), map[c]]
        0 <= r < map.len() && 0 <= c < map.len() ==> map[c] < kk[map[r] as int]@.len()
}

/// `m2` is `m1` with entry `(a, b)` replaced by a result of `plus(entry, x)`.
pub open spec fn add_step<T, F: Fn(T, T) -> T>(
    m1: Seq<Vec<T>>,
    m2: Seq<Vec<T>>,
    a: int,
    b: int,
    x: T,
    plus: F,
) -> bool {
    &&& same_shape(m1, m2)
    &&& call_ensures(plus, (entry(m1, a, b), x), entry(m2, a, b))
    &&& forall|p: int, q: int|
        0 <= p < m1.len() && 0 <= q < m1[p]@.len() && !(p == a && q == b) ==> #[trigger] entry(m2, p, q)
            == entry(m1, p, q)
}

/// `trace[k + 1]` follows from `trace[k]` by adding `ke[r][c]` into entry
/// `(map[r], map[c])`, where `(r, c)` is the `k`-th local pair in row-major
/// order (`r = k / n`, `c = k % n` for `n = map.len()`).
pub open spec fn scatter_trace<T, F: Fn(T, T) -> T>(
    trace: Seq<Seq<Vec<T>>>,
    map: Seq<usize>,
    ke: Seq<Vec<T>>,
    plus: F,
) -> bool {
    let n = map.len() as int;
    forall|k: int|
        0 <= k < trace.len() - 1 ==> #[trigger] add_step(
            trace[k],
            trace[k + 1],
            map[k / n] as int,
            map[k % n] as int,
            ke[k / n]@[k % n],
            plus,
        )
}

/// Adds the element matrix `ke` into `kk` through the DOF map `map`: for every
/// local pair `(r, c)`, in row-major order, entry `(map[r], map[c])` of `kk`
/// becomes `plus(entry, ke[r][c])`. Entries that the map does not reach keep
/// their value; when the map names no DOF twice, each reached entry is the sum
/// of its old value and exactly one element entry.
pub fn scatter_add<T: Copy, F: Fn(T, T) -> T>(
    kk: &mut Vec<Vec<T>>,
    map: &[usize],
    ke: &Vec<Vec<T>>,
    plus: &F,
)
    requires
        is_square(ke@, map@.len()),
        map_fits(old(kk)@, map@),
        forall|x: T, y: T| call_requires(*plus, (x, y)),
    ensures
        exists|trace: Seq<Seq<Vec<T>>>|
            {
                &&& #[trigger] trace.len() == map@.len() * map@.len() + 1
                &&& trace[0] == old(kk)@
                &&& trace.last() == final(kk)@
                &&& scatter_trace(trace, map@, ke@, *plus)
            },
        exists|steps: Seq<Seq<Vec<T>>>|
            {
                &&& #[trigger] steps.len() == map@.len() * map@.len() + 1
                &&& steps[0] == old(kk)@
                &&& steps.last() == final(kk)@
                &&& forall|k: int|
                    #![trigger steps[k]]
                    0 <= k < map@.len() * map@.len() ==> {
                        let n = map@.len() as int;
                        let a = map@[k / n] as int;
                        let b = map@[k % n] as int;
                        &&& steps[k + 1].len() == steps[k].len()
                        &&& forall|p: int|
                            0 <= p < steps[k].len() ==> #[trigger] steps[k + 1][p]@.len()
                                == steps[k][p]@.len()
                        &&& call_ensures(
                            *plus,
                            (steps[k][a]@[b], ke@[k / n]@[k % n]),
                            steps[k + 1][a]@[b],
                        )
                        &&& forall|p: int, q: int|
                            0 <= p < steps[k].len() && 0 <= q < steps[k][p]@.len() && !(p == a && q
                                == b) ==> #[trigger] steps[k + 1][p]@[q] == steps[k][p]@[q]
                    }
            },
        final(kk)@.len() == old(kk)@.len(),
        forall|a: int| 0 <= a < old(kk)@.len() ==> #[trigger] final(kk)@[a]@.len() == old(kk)@[a]@.len(),
        forall|a: int, b: int|
            0 <= a < old(kk)@.len() && 0 <= b < old(kk)@[a]@.len() && (!(exists|r: int|
                0 <= r < map@.len() && map@[r] as int == a) || !(exists|c: int|
                0 <= c < map@.len() && map@[c] as int == b)) ==> #[trigger] final(kk)@[a]@[b]
                == old(kk)@[a]@[b],
        map@.no_duplicates() ==> forall|r: int, c: int|
            0 <= r < map@.len() && 0 <= c < map@.len() ==> call_ensures(
                *plus,
                (old(kk)@[map@[r] as int]@[map@[c] as int], ke@[r]@[c]),
                #[trigger] final(kk)@[map@[r] as int]@[map@[c] as int],
            ),
        same_shape(old(kk)@, final(kk)@),
        forall|a: int, b: int|
            0 <= a < old(kk)@.len() && 0 <= b < old(kk)@[a]@.len() && !reached(map@, a, b)
                ==> #[trigger] entry(final(kk)@, a, b) == entry(old(kk)@, a, b),
        map@.no_duplicates() ==> forall|r: int, c: int|
            0 <= r < map@.len() && 0 <= c < map@.len() ==> call_ensures(
                *plus,
                (entry(old(kk)@, map@[r] as int, map@[c] as int), ke@[r]@[c]),
                #[trigger] entry(final(kk)@, map@[r] as int, map@[c] as int),
            ),
{
    let n = map.len();
    let ghost orig = kk@;
    let ghost mut trace: Seq<Seq<Vec<T>>> = seq![kk@];
    let mut r: usize = 0;
    while r < n
        invariant
            n == map@.len(),
            r <= n,
            is_square(ke@, n as nat),
            map_fits(orig, map@),
            forall|x: T, y: T| call_requires(*plus, (x, y)),
            same_shape(orig, kk@),
            trace.len() == r * n + 1,
            trace[0] == orig,
            trace.last() == kk@,
            scatter_trace(trace, map@, ke@, *plus),
            forall|a: int, b: int|
                0 <= a < orig.len() && 0 <= b < orig[a]@.len() && !reached(map@, a, b)
                    ==> #[trigger] entry(kk@, a, b) == entry(orig, a, b),
            map@.no_duplicates() ==> forall|r1: int, c1: int|
                0 <= r1 < r && 0 <= c1 < n ==> call_ensures(
                    *plus,
                    (entry(orig, map@[r1] as int, map@[c1] as int), ke@[r1]@[c1]),
                    #[trigger] entry(kk@, map@[r1] as int, map@[c1] as int),
                ),
            map@.no_duplicates() ==> forall|r1: int, c1: int|
                r <= r1 < n && 0 <= c1 < n ==> #[trigger] entry(kk@, map@[r1] as int, map@[c1] as int)
                    == entry(orig, map@[r1] as int, map@[c1] as int),
        decreases n - r,
    {
        let mut c: usize = 0;
        while c < n
            invariant
                n == map@.len(),
                r < n,
                c <= n,
                is_square(ke@, n as nat),
                map_fits(orig, map@),
                forall|x: T, y: T| call_requires(*plus, (x, y)),
                same_shape(orig, kk@),
                trace.len() == r * n + c + 1,
                trace[0] == orig,
                trace.last() == kk@,
                scatter_trace(trace, map@, ke@, *plus),
                forall|a: int, b: int|
                    0 <= a < orig.len() && 0 <= b < orig[a]@.len() && !reached(map@, a, b)
                        ==> #[trigger] entry(kk@, a, b) == entry(orig, a, b),
                map@.no_duplicates() ==> forall|r1: int, c1: int|
                    (0 <= r1 < r && 0 <= c1 < n) || (r1 == r && 0 <= c1 < c) ==> call_ensures(
                        *plus,
                        (entry(orig, map@[r1] as int, map@[c1] as int), ke@[r1]@[c1]),
                        #[trigger] entry(kk@, map@[r1] as int, map@[c1] as int),
                    ),
                map@.no_duplicates() ==> forall|r1: int, c1: int|
                    ((r < r1 < n && 0 <= c1 < n) || (r1 == r && c <= c1 < n)) ==> #[trigger] entry(
                        kk@,
                        map@[r1] as int,
                        map@[c1] as int,
                    ) == entry(orig, map@[r1] as int, map@[c1] as int),
            decreases n - c,
        {
            let a = map[r];
            let b = map[c];
            let ghost before = kk@;
            proof {
                assert(map@[r as int] < orig.len());
                assert(map@[c as int] < orig[map@[r as int] as int]@.len());
            }
            let cur = kk[a][b];
            let sum = plus(cur, ke[r][c]);
            kk[a][b] = sum;
            proof {
                let k = r * n + c;
                lemma_fundamental_div_mod_converse(k as int, n as int, r as int, c as int);
                assert(add_step(before, kk@, a as int, b as int, ke@[r as int]@[c as int], *plus));
                let old_trace = trace;
                trace = trace.push(kk@);
                assert forall|j: int| 0 <= j < trace.len() - 1 implies #[trigger] add_step(
                    trace[j],
                    trace[j + 1],
                    map@[j / n as int] as int,
                    map@[j % n as int] as int,
                    ke@[j / n as int]@[j % n as int],
                    *plus,
                ) by {
                    if j < old_trace.len() - 1 {
                        assert(add_step(
                            old_trace[j],
                            old_trace[j + 1],
                            map@[j / n as int] as int,
                            map@[j % n as int] as int,
                            ke@[j / n as int]@[j % n as int],
                            *plus,
                        ));
                    }
                }
                assert(entry(kk@, a as int, b as int) == sum);
                assert forall|x: int, y: int|
                    0 <= x < kk@.len() && 0 <= y < kk@[x]@.len() && !(x == a && y == b) implies
                    #[trigger] entry(kk@, x, y) == entry(before, x, y) by {
                    if x == a {
                        assert(kk@[x]@ == before[x]@.update(b as int, sum));
                    }
                }
                assert(reached(map@, a as int, b as int));
                if map@.no_duplicates() {
                    assert(entry(before, a as int, b as int) == entry(orig, a as int, b as int));
                    assert forall|r1: int, c1: int|
                        0 <= r1 < n && 0 <= c1 < n && !(r1 == r && c1 == c) implies !(map@[r1] == a
                        && map@[c1] == b) by {
                        if map@[r1] == a && map@[c1] == b {
                            assert(r1 == r);
                            assert(c1 == c);
                        }
                    }
                }
            }
            c = c + 1;
        }
        proof {
            vstd::arithmetic::mul::lemma_mul_is_distributive_add_other_way(n as int, r as int, 1);
        }
        r = r + 1;
    }
    proof {
        assert(trace.len() == map@.len() * map@.len() + 1);
        let nn = map@.len() as int;
        assert forall|a: int, b: int|
            0 <= a < orig.len() && 0 <= b < orig[a]@.len() && (!(exists|r: int|
                0 <= r < map@.len() && map@[r] as int == a) || !(exists|c: int|
                0 <= c < map@.len() && map@[c] as int == b)) implies #[trigger] kk@[a]@[b]
            == orig[a]@[b] by {
            assert(!reached(map@, a, b));
            assert(entry(kk@, a, b) == entry(orig, a, b));
        }
        if map@.no_duplicates() {
            assert forall|r: int, c: int| 0 <= r < map@.len() && 0 <= c < map@.len() implies call_ensures(
                *plus,
                (orig[map@[r] as int]@[map@[c] as int], ke@[r]@[c]),
                #[trigger] kk@[map@[r] as int]@[map@[c] as int],
            ) by {
                assert(call_ensures(
                    *plus,
                    (entry(orig, map@[r] as int, map@[c] as int), ke@[r]@[c]),
                    entry(kk@, map@[r] as int, map@[c] as int),
                ));
            }
        }
        assert forall|k: int|
            #![trigger trace[k]]
            0 <= k < map@.len() * map@.len() implies {
                let a = map@[k / nn] as int;
                let b = map@[k % nn] as int;
                &&& trace[k + 1].len() == trace[k].len()
                &&& forall|p: int|
                    0 <= p < trace[k].len() ==> #[trigger] trace[k + 1][p]@.len() == trace[k][p]@.len()
                &&& call_ensures(*plus, (trace[k][a]@[b], ke@[k / nn]@[k % nn]), trace[k + 1][a]@[b])
                &&& forall|p: int, q: int|
                    0 <= p < trace[k].len() && 0 <= q < trace[k][p]@.len() && !(p == a && q == b)
                        ==> #[trigger] trace[k + 1][p]@[q] == trace[k][p]@[q]
            } by {
            assert(add_step(
                trace[k],
                trace[k + 1],
                map@[k / nn] as int,
                map@[k % nn] as int,
                ke@[k / nn]@[k % nn],
                *plus,
            ));
            assert forall|p: int, q: int|
                0 <= p < trace[k].len() && 0 <= q < trace[k][p]@.len() && !(p == map@[k / nn] as int
                    && q == map@[k % nn] as int) implies #[trigger] trace[k + 1][p]@[q]
                == trace[k][p]@[q] by {
                assert(entry(trace[k + 1], p, q) == entry(trace[k], p, q));
            }
        }
    }
}

/// A DOF map whose entries are all below `n` fits any square `n` by `n` matrix.
pub proof fn lemma_map_fits_square<T>(kk: Seq<Vec<T>>, map: Seq<usize>, n: nat)
    requires
        is_square(kk, n),
        forall|r: int| 0 <= r < map.len() ==> #[trigger] map[r] < n,
    ensures
        map_fits(kk, map),
{
}

} // verus!
