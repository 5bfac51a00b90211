//! Moving values between the full DOF vector and the reduced (free-DOF) system:
//! gathering the free rows and columns out of the full system, and scattering
//! a reduced solution or a list of nodal loads back into a full vector.

use vstd::prelude::*;
use crate::partition::{free_dof_seq, lemma_free_dofs_ascending, lemma_free_dofs_exact};

verus! {

/// A sequence of `n` copies of `v`.
pub open spec fn filled<T>(n: nat, v: T) -> Seq<T> {
    Seq::new(n, |i: int| v)
}

/// The entries of `full` at the positions `idx`, in the order of `idx`.
pub open spec fn gather<T>(full: Seq<T>, idx: Seq<usize>) -> Seq<T> {
    idx.map_values(|d: usize| full[d as int])
}

/// `base` after writing `vals[0]` at position `idx[0]`, then `vals[1]` at
/// `idx[1]`, and so on in order; where a position repeats, the later write stays.
pub open spec fn overwrite<T>(base: Seq<T>, idx: Seq<usize>, vals: Seq<T>) -> Seq<T>
    decreases idx.len(),
{
    if idx.len() == 0 {
        base
    } else {
        let n = idx.len() - 1;
        overwrite(base, idx.take(n), vals).update(idx[n] as int, vals[n])
    }
}

/// Every position in `idx` is below `n`.
pub open spec fn all_below(idx: Seq<usize>, n: nat) -> bool {
    forall|i: int| 0 <= i < idx.len() ==> #[trigger] idx[i] < n
}

/// A vector of `n` copies of `v`.
fn filled_vec<T: Copy>(n: usize, v: T) -> (out: Vec<T>)
    ensures
        out@ == filled(n as nat, v),
{
    let mut out: Vec<T> = Vec::new();
    let mut i: usize = 0;
    while i < n
        invariant
            i <= n,
            out@ == filled(i as nat, v),
        decreases n - i,
    {
        out.push(v);
        i = i + 1;
        proof {
            assert(out@ =~= filled(i as nat, v));
        }
    }
    out
}

/// The entries of `full` at the free DOFs: entry `i` of the result is `full[free[i]]`.
pub fn restrict<T: Copy>(full: &[T], free: &[usize]) -> (out: Vec<T>)
    requires
        all_below(free@, full@.len()),
    ensures
        out@ == gather(full@, free@),
        out@.len() == free@.len(),
        forall|i: int| 0 <= i < free@.len() ==> #[trigger] out@[i] == full@[free@[i] as int],
{
    let mut out: Vec<T> = Vec::new();
    let mut i: usize = 0;
    while i < free.len()
        invariant
            i <= free@.len(),
            all_below(free@, full@.len()),
            out@ == gather(full@, free@.take(i as int)),
        decreases free.len() - i,
    {
        let d = free[i];
        out.push(full[d]);
        proof {
            assert(free@.take(i + 1) =~= free@.take(i as int).push(d));
            assert(out@ =~= gather(full@, free@.take(i + 1)));
        }
        i = i + 1;
    }
    proof {
        assert(free@.take(free@.len() as int) =~= free@);
    }
    out
}

/// The square block of `full` on the free DOFs: entry `(i, j)` of the result is
/// `full[free[i]][free[j]]`.
pub fn restrict_matrix<T: Copy>(full: &Vec<Vec<T>>, free: &[usize]) -> (out: Vec<Vec<T>>)
    requires
        all_below(free@, full@.len()),
        forall|i: int| 0 <= i < free@.len() ==> all_below(free@, full@[free@[i] as int]@.len()),
    ensures
        out@.len() == free@.len(),
        forall|i: int|
            0 <= i < free@.len() ==> #[trigger] out@[i]@ == gather(full@[free@[i] as int]@, free@),
        forall|i: int| 0 <= i < free@.len() ==> #[trigger] out@[i]@.len() == free@.len(),
        forall|i: int, j: int|
            0 <= i < free@.len() && 0 <= j < free@.len() ==> #[trigger] out@[i]@[j]
                == full@[free@[i] as int]@[free@[j] as int],
{
    let mut out: Vec<Vec<T>> = Vec::new();
    let mut i: usize = 0;
    while i < free.len()
        invariant
            i <= free@.len(),
            all_below(free@, full@.len()),
            forall|k: int| 0 <= k < free@.len() ==> all_below(free@, full@[free@[k] as int]@.len()),
            out@.len() == i,
            forall|k: int|
                0 <= k < i ==> #[trigger] out@[k]@ == gather(full@[free@[k] as int]@, free@),
        decreases free.len() - i,
    {
        let row = restrict(full[free[i]].as_slice(), free);
        out.push(row);
        i = i + 1;
    }
    out
}

/// Scatters a reduced vector back to the full DOF vector: a vector of `ndof`
/// copies of `fill` in which `reduced[i]` is written at `free[i]` for each `i`
/// in order.
pub fn expand<T: Copy>(reduced: &[T], free: &[usize], ndof: usize, fill: T) -> (out: Vec<T>)
    requires
        free@.len() <= reduced@.len(),
        all_below(free@, ndof as nat),
    ensures
        out@ == overwrite(filled(ndof as nat, fill), free@, reduced@),
        out@.len() == ndof,
        forall|i: int|
            0 <= i < free@.len() && (forall|j: int| i < j < free@.len() ==> free@[j] != free@[i])
                ==> #[trigger] out@[free@[i] as int] == reduced@[i],
        forall|d: int|
            0 <= d < ndof && (forall|i: int| 0 <= i < free@.len() ==> free@[i] as int != d)
                ==> #[trigger] out@[d] == fill,
{
    let mut out = filled_vec(ndof, fill);
    let mut i: usize = 0;
    while i < free.len()
        invariant
            i <= free@.len(),
            free@.len() <= reduced@.len(),
            all_below(free@, ndof as nat),
            out@ == overwrite(filled(ndof as nat, fill), free@.take(i as int), reduced@),
            out@.len() == ndof,
        decreases free.len() - i,
    {
        let d = free[i];
        proof {
            assert(free@.take(i + 1).take(i as int) =~= free@.take(i as int));
        }
        out.set(d, reduced[i]);
        i = i + 1;
    }
    proof {
        assert(free@.take(free@.len() as int) =~= free@);
        lemma_overwrite_semantics(filled(ndof as nat, fill), free@, reduced@);
    }
    out
}

/// The first components of a list of pairs.
pub open spec fn firsts<T>(pairs: Seq<(usize, T)>) -> Seq<usize> {
    pairs.map_values(|p: (usize, T)| p.0)
}

/// The second components of a list of pairs.
pub open spec fn seconds<T>(pairs: Seq<(usize, T)>) -> Seq<T> {
    pairs.map_values(|p: (usize, T)| p.1)
}

/// The nodal load vector of a model with `ndof` DOFs: `ndof` copies of `zero`
/// in which each `(dof, value)` of `loads` is written in order, so that a DOF
/// listed twice keeps its last value.
pub fn load_vector<T: Copy>(ndof: usize, loads: &[(usize, T)], zero: T) -> (out: Vec<T>)
    requires
        all_below(firsts(loads@), ndof as nat),
    ensures
        out@ == overwrite(filled(ndof as nat, zero), firsts(loads@), seconds(loads@)),
        out@.len() == ndof,
        forall|i: int|
            0 <= i < loads@.len() && (forall|j: int| i < j < loads@.len() ==> loads@[j].0 != loads@[i].0)
                ==> #[trigger] out@[loads@[i].0 as int] == loads@[i].1,
        forall|d: int|
            0 <= d < ndof && (forall|i: int| 0 <= i < loads@.len() ==> loads@[i].0 as int != d)
                ==> #[trigger] out@[d] == zero,
{
    let mut out = filled_vec(ndof, zero);
    let mut i: usize = 0;
    while i < loads.len()
        invariant
            i <= loads@.len(),
            all_below(firsts(loads@), ndof as nat),
            out@ == overwrite(filled(ndof as nat, zero), firsts(loads@).take(i as int), seconds(loads@)),
            out@.len() == ndof,
        decreases loads.len() - i,
    {
        let (d, v) = loads[i];
        proof {
            assert(firsts(loads@)[i as int] == d);
            assert(firsts(loads@).take(i + 1).take(i as int) =~= firsts(loads@).take(i as int));
        }
        out.set(d, v);
        i = i + 1;
    }
    proof {
        assert(firsts(loads@).take(loads@.len() as int) =~= firsts(loads@));
        assert forall|k: int| 0 <= k < loads@.len() implies #[trigger] loads@[k].0 < ndof by {
            assert(firsts(loads@)[k] == loads@[k].0);
        }
        lemma_load_vector_values(ndof as nat, loads@, zero);
    }
    out
}

/// Writing at positions inside `base` never changes the length.
pub proof fn lemma_overwrite_len<T>(base: Seq<T>, idx: Seq<usize>, vals: Seq<T>)
    requires
        all_below(idx, base.len()),
    ensures
        overwrite(base, idx, vals).len() == base.len(),
    decreases idx.len(),
{
    if idx.len() > 0 {
        assert(all_below(idx.take(idx.len() - 1), base.len()));
        lemma_overwrite_len(base, idx.take(idx.len() - 1), vals);
    }
}

/// A position that no write names keeps its value from `base`.
pub proof fn lemma_overwrite_untouched<T>(base: Seq<T>, idx: Seq<usize>, vals: Seq<T>, d: int)
    requires
        0 <= d < base.len(),
        all_below(idx, base.len()),
        forall|i: int| 0 <= i < idx.len() ==> idx[i] as int != d,
    ensures
        overwrite(base, idx, vals)[d] == base[d],
    decreases idx.len(),
{
    if idx.len() > 0 {
        let n = idx.len() - 1;
        assert forall|i: int| 0 <= i < idx.take(n).len() implies idx.take(n)[i] as int != d by {
            assert(idx.take(n)[i] == idx[i]);
        }
        assert(all_below(idx.take(n), base.len()));
        lemma_overwrite_untouched(base, idx.take(n), vals, d);
        lemma_overwrite_len(base, idx.take(n), vals);
    }
}

/// The last write to a position decides its value: if no later write names
/// `idx[i]`, the result holds `vals[i]` there.
pub proof fn lemma_overwrite_last_write<T>(base: Seq<T>, idx: Seq<usize>, vals: Seq<T>, i: int)
    requires
        0 <= i < idx.len(),
        all_below(idx, base.len()),
        forall|j: int| i < j < idx.len() ==> idx[j] != idx[i],
    ensures
        overwrite(base, idx, vals)[idx[i] as int] == vals[i],
    decreases idx.len(),
{
    let n = idx.len() - 1;
    lemma_overwrite_len(base, idx.take(n), vals);
    if i < n {
        assert(all_below(idx.take(n), base.len()));
        lemma_overwrite_last_write(base, idx.take(n), vals, i);
    }
}

/// Scattering a reduced vector over distinct free DOFs and gathering it back
/// gives the reduced vector again.
pub proof fn lemma_expand_then_restrict<T>(reduced: Seq<T>, free: Seq<usize>, ndof: nat, fill: T)
    requires
        free.no_duplicates(),
        all_below(free, ndof),
        reduced.len() == free.len(),
    ensures
        gather(overwrite(filled(ndof, fill), free, reduced), free) == reduced,
{
    let full = overwrite(filled(ndof, fill), free, reduced);
    assert forall|i: int| 0 <= i < free.len() implies #[trigger] gather(full, free)[i]
        == reduced[i] by {
        lemma_overwrite_last_write(filled(ndof, fill), free, reduced, i);
    }
    assert(gather(full, free) =~= reduced);
}

/// Gathering the free entries of a full vector and scattering them back over a
/// vector of `fill` keeps the full vector's value at every free DOF and puts
/// `fill` at every other DOF.
pub proof fn lemma_restrict_then_expand<T>(full: Seq<T>, free: Seq<usize>, fill: T)
    requires
        free.no_duplicates(),
        all_below(free, full.len()),
    ensures
        overwrite(filled(full.len(), fill), free, gather(full, free)).len() == full.len(),
        forall|d: usize|
            d < full.len() ==> #[trigger] overwrite(filled(full.len(), fill), free, gather(full, free))[d as int]
                == if free.contains(d) {
                full[d as int]
            } else {
                fill
            },
{
    let base = filled(full.len(), fill);
    let vals = gather(full, free);
    lemma_overwrite_len(base, free, vals);
    assert forall|d: usize| d < full.len() implies #[trigger] overwrite(base, free, vals)[d as int]
        == if free.contains(d) {
        full[d as int]
    } else {
        fill
    } by {
        if free.contains(d) {
            let i = choose|i: int| 0 <= i < free.len() && free[i] == d;
            lemma_overwrite_last_write(base, free, vals, i);
        } else {
            lemma_overwrite_untouched(base, free, vals, d as int);
        }
    }
}

/// Scattering a solution of the reduced system over the free DOFs of a model:
/// every prescribed DOF gets `fill` (zero displacement at the supports) and the
/// `i`-th free DOF gets `reduced[i]`.
pub proof fn lemma_expand_over_free_dofs<T>(reduced: Seq<T>, ndof: usize, fixed: Seq<usize>, fill: T)
    requires
        reduced.len() >= free_dof_seq(ndof as nat, fixed).len(),
    ensures
        ({
            let free = free_dof_seq(ndof as nat, fixed);
            let u = overwrite(filled(ndof as nat, fill), free, reduced);
            &&& u.len() == ndof
            &&& forall|d: usize| d < ndof && fixed.contains(d) ==> #[trigger] u[d as int] == fill
            &&& forall|i: int| 0 <= i < free.len() ==> #[trigger] u[free[i] as int] == reduced[i]
        }),
{
    let free = free_dof_seq(ndof as nat, fixed);
    let base = filled(ndof as nat, fill);
    lemma_free_dofs_ascending(ndof as nat, fixed);
    assert forall|i: int| 0 <= i < free.len() implies #[trigger] free[i] < ndof by {
        assert(free.contains(free[i]));
        lemma_free_dofs_exact(ndof as nat, fixed, free[i]);
    }
    assert(all_below(free, ndof as nat));
    lemma_overwrite_len(base, free, reduced);
    assert forall|d: usize| d < ndof && fixed.contains(d) implies #[trigger] overwrite(
        base,
        free,
        reduced,
    )[d as int] == fill by {
        lemma_free_dofs_exact(ndof as nat, fixed, d);
        assert forall|i: int| 0 <= i < free.len() implies free[i] as int != d as int by {
            assert(free.contains(free[i]));
        }
        lemma_overwrite_untouched(base, free, reduced, d as int);
    }
    assert forall|i: int| 0 <= i < free.len() implies #[trigger] overwrite(base, free, reduced)[free[i] as int]
        == reduced[i] by {
        lemma_overwrite_last_write(base, free, reduced, i);
    }
}

/// What a sequence of writes leaves behind, stated over the writes themselves:
/// the length is kept, a position written by write `i` and by no later write
/// holds `vals[i]`, and a position that no write names keeps its base value.
pub proof fn lemma_overwrite_semantics<T>(base: Seq<T>, idx: Seq<usize>, vals: Seq<T>)
    requires
        all_below(idx, base.len()),
    ensures
        overwrite(base, idx, vals).len() == base.len(),
        forall|i: int|
            0 <= i < idx.len() && (forall|j: int| i < j < idx.len() ==> idx[j] != idx[i])
                ==> #[trigger] overwrite(base, idx, vals)[idx[i] as int] == vals[i],
        forall|d: int|
            0 <= d < base.len() && (forall|i: int| 0 <= i < idx.len() ==> idx[i] as int != d)
                ==> #[trigger] overwrite(base, idx, vals)[d] == base[d],
{
    lemma_overwrite_len(base, idx, vals);
    assert forall|i: int|
        0 <= i < idx.len() && (forall|j: int| i < j < idx.len() ==> idx[j] != idx[i]) implies
        #[trigger] overwrite(base, idx, vals)[idx[i] as int] == vals[i] by {
        lemma_overwrite_last_write(base, idx, vals, i);
    }
    assert forall|d: int|
        0 <= d < base.len() && (forall|i: int| 0 <= i < idx.len() ==> idx[i] as int != d) implies
        #[trigger] overwrite(base, idx, vals)[d] == base[d] by {
        lemma_overwrite_untouched(base, idx, vals, d);
    }
}

/// The load vector built from a list of point loads: it has `ndof` entries;
/// each load `(dof, value)` that no later load overrides puts `value` at `dof`;
/// every DOF that no load names holds `zero`.
pub proof fn lemma_load_vector_values<T>(ndof: nat, loads: Seq<(usize, T)>, zero: T)
    requires
        forall|i: int| 0 <= i < loads.len() ==> #[trigger] loads[i].0 < ndof,
    ensures
        firsts(loads).len() == loads.len(),
        seconds(loads).len() == loads.len(),
        forall|i: int| 0 <= i < loads.len() ==> #[trigger] firsts(loads)[i] == loads[i].0,
        forall|i: int| 0 <= i < loads.len() ==> #[trigger] seconds(loads)[i] == loads[i].1,
        ({
            let f = overwrite(filled(ndof, zero), firsts(loads), seconds(loads));
            &&& f.len() == ndof
            &&& forall|i: int|
                0 <= i < loads.len() && (forall|j: int| i < j < loads.len() ==> loads[j].0 != loads[i].0)
                    ==> #[trigger] f[loads[i].0 as int] == loads[i].1
            &&& forall|d: int|
                0 <= d < ndof && (forall|i: int| 0 <= i < loads.len() ==> loads[i].0 as int != d)
                    ==> #[trigger] f[d] == zero
        }),
{
    let idx = firsts(loads);
    let vals = seconds(loads);
    assert(all_below(idx, ndof));
    lemma_overwrite_semantics(filled(ndof, zero), idx, vals);
    let f = overwrite(filled(ndof, zero), idx, vals);
    assert forall|i: int|
        0 <= i < loads.len() && (forall|j: int| i < j < loads.len() ==> loads[j].0 != loads[i].0)
        implies #[trigger] f[loads[i].0 as int] == loads[i].1 by {
        assert forall|j: int| i < j < idx.len() implies idx[j] != idx[i] by {
            assert(idx[j] == loads[j].0);
        }
        assert(f[idx[i] as int] == vals[i]);
    }
    assert forall|d: int|
        0 <= d < ndof && (forall|i: int| 0 <= i < loads.len() ==> loads[i].0 as int != d)
        implies #[trigger] f[d] == zero by {
        assert forall|i: int| 0 <= i < idx.len() implies idx[i] as int != d by {
            assert(idx[i] == loads[i].0);
        }
        assert(f[d] == filled(ndof, zero)[d]);
    }
}

} // verus!
