//! Splitting the DOFs `0..ndof` into free ones and prescribed (fixed) ones.

use vstd::prelude::*;

verus! {

/// The DOFs `0, 1, ..., ndof - 1` in ascending order.
pub open spec fn dof_range(ndof: nat) -> Seq<usize> {
    Seq::new(ndof, |i: int| i as usize)
}

/// The predicate "not prescribed" for a list of fixed DOFs.
pub open spec fn not_fixed(fixed: Seq<usize>) -> spec_fn(usize) -> bool {
    |d: usize| !fixed.contains(d)
}

/// The free DOFs: those of `0..ndof` that `fixed` does not list, in ascending order.
pub open spec fn free_dof_seq(ndof: nat, fixed: Seq<usize>) -> Seq<usize> {
    dof_range(ndof).filter(not_fixed(fixed))
}

/// Whether `d` is one of the prescribed DOFs.
fn is_fixed(fixed: &[usize], d: usize) -> (r: bool)
    ensures
        r == fixed@.contains(d),
{
    let mut i: usize = 0;
    while i < fixed.len()
        invariant
            i <= fixed@.len(),
            forall|j: int| 0 <= j < i ==> fixed@[j] != d,
        decreases fixed.len() - i,
    {
        if fixed[i] == d {
            return true;
        }
        i = i + 1;
    }
    false
}

/// The free DOFs of a model with `ndof` DOFs of which `fixed` are prescribed:
/// every `d < ndof` that `fixed` does not contain, in ascending order.
/// Entries of `fixed` that are `>= ndof` are ignored, and repeated ones count once.
pub fn free_dofs(ndof: usize, fixed: &[usize]) -> (free: Vec<usize>)
    ensures
        free@ == free_dof_seq(ndof as nat, fixed@),
        forall|d: usize| #[trigger] free@.contains(d) <==> (d < ndof && !fixed@.contains(d)),
        forall|i: int, j: int| 0 <= i < j < free@.len() ==> free@[i] < free@[j],
{
    let mut free: Vec<usize> = Vec::new();
    let mut d: usize = 0;
    while d < ndof
        invariant
            d <= ndof,
            free@ == free_dof_seq(d as nat, fixed@),
        decreases ndof - d,
    {
        proof {
            assert(dof_range((d + 1) as nat) =~= dof_range(d as nat).push(d));
            dof_range(d as nat).lemma_filter_push(d, not_fixed(fixed@));
        }
        if !is_fixed(fixed, d) {
            free.push(d);
        }
        d = d + 1;
    }
    proof {
        assert forall|x: usize| #[trigger] free@.contains(x) <==> (x < ndof && !fixed@.contains(x)) by {
            lemma_free_dofs_exact(ndof as nat, fixed@, x);
        }
        lemma_free_dofs_ascending(ndof as nat, fixed@);
    }
    free
}

/// Every DOF below `ndof` is either free or fixed, never both: a DOF is among the
/// free ones exactly when it is below `ndof` and not prescribed.
pub proof fn lemma_free_dofs_exact(ndof: nat, fixed: Seq<usize>, d: usize)
    requires
        ndof <= usize::MAX + 1,
    ensures
        free_dof_seq(ndof, fixed).contains(d) <==> (d < ndof && !fixed.contains(d)),
{
    let r = dof_range(ndof);
    let p = not_fixed(fixed);
    if free_dof_seq(ndof, fixed).contains(d) {
        r.lemma_filter_contains_rev(p, d);
        let j = choose|j: int| 0 <= j < r.len() && r[j] == d;
        let k = choose|k: int| 0 <= k < r.filter(p).len() && r.filter(p)[k] == d;
        r.lemma_filter_pred(p, k);
    }
    if d < ndof && !fixed.contains(d) {
        assert(r[d as int] == d);
        r.lemma_filter_contains(p, d as int);
    }
}

/// The free DOFs come in strictly ascending order, so no DOF is listed twice.
pub proof fn lemma_free_dofs_ascending(ndof: nat, fixed: Seq<usize>)
    requires
        ndof <= usize::MAX + 1,
    ensures
        forall|i: int, j: int|
            0 <= i < j < free_dof_seq(ndof, fixed).len() ==> free_dof_seq(ndof, fixed)[i]
                < free_dof_seq(ndof, fixed)[j],
    decreases ndof,
{
    if ndof > 0 {
        let n1 = (ndof - 1) as nat;
        let prev = free_dof_seq(n1, fixed);
        lemma_free_dofs_ascending(n1, fixed);
        assert(dof_range(ndof) =~= dof_range(n1).push(n1 as usize));
        dof_range(n1).lemma_filter_push(n1 as usize, not_fixed(fixed));
        assert forall|i: int| 0 <= i < prev.len() implies prev[i] < n1 by {
            assert(prev.contains(prev[i]));
            lemma_free_dofs_exact(n1, fixed, prev[i]);
        }
    } else {
        dof_range(0).lemma_filter_len(not_fixed(fixed));
    }
}

} // verus!
