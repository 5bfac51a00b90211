//! Numbering of nodal degrees of freedom.
//!
//! A model with `per_node` DOFs at each node numbers component `comp` of node
//! `node` as `per_node * node + comp`. A 2D frame uses `per_node == 3`
//! (`u_x`, `u_y`, `theta`); a plane-stress continuum uses `per_node == 2`.

use vstd::prelude::*;
use vstd::arithmetic::div_mod::*;
use vstd::arithmetic::mul::*;

verus! {

/// Global index of component `comp` of node `node`.
pub open spec fn global_dof(per_node: int, node: int, comp: int) -> int {
    per_node * node + comp
}

/// The element DOF map: entry `l` is the global DOF of local DOF `l`, which is
/// component `l % per_node` of the element's node `conn[l / per_node]`.
pub open spec fn element_dof_map(conn: Seq<usize>, per_node: nat) -> Seq<int> {
    Seq::new(
        conn.len() * per_node,
        |l: int| global_dof(per_node as int, conn[l / per_node as int] as int, l % per_node as int),
    )
}

/// Every global DOF of the element's nodes fits in a `usize`.
pub open spec fn dofs_fit(conn: Seq<usize>, per_node: nat) -> bool {
    &&& conn.len() * per_node <= usize::MAX
    &&& forall|a: int|
        0 <= a < conn.len() ==> #[trigger] global_dof(per_node as int, conn[a] as int, per_node - 1)
            <= usize::MAX
}

/// Local DOF `l` of an element sits at node slot `l / per_node`, component `l % per_node`.
proof fn lemma_local_split(l: int, n: int, per_node: int)
    requires
        per_node > 0,
        n >= 0,
        0 <= l < n * per_node,
    ensures
        0 <= l / per_node < n,
        0 <= l % per_node < per_node,
{
    lemma_div_pos_is_pos(l, per_node);
    lemma_mod_bound(l, per_node);
    lemma_mul_is_commutative(n, per_node);
    lemma_div_strictly_bounded(l, per_node, n);
}

proof fn lemma_div_strictly_bounded(x: int, a: int, b: int)
    requires
        a > 0,
        b >= 0,
        0 <= x < a * b,
    ensures
        x / a < b,
{
    lemma_div_by_multiple(b, a);
    lemma_mul_is_commutative(a, b);
    lemma_div_by_multiple_is_strongly_ordered(x, a * b, b, a);
}

/// Builds the element-to-global DOF map of an element whose nodes are `conn`,
/// with `per_node` DOFs at each node: entry `l` is
/// `per_node * conn[l / per_node] + l % per_node`.
pub fn element_dofs(conn: &[usize], per_node: usize) -> (map: Vec<usize>)
    requires
        per_node > 0,
        dofs_fit(conn@, per_node as nat),
    ensures
        map@.len() == conn@.len() * per_node,
        forall|l: int|
            0 <= l < map@.len() ==> #[trigger] map@[l] as int == element_dof_map(
                conn@,
                per_node as nat,
            )[l],
        forall|l: int|
            0 <= l < map@.len() ==> #[trigger] map@[l] as int == per_node * conn@[l / per_node as int]
                + l % per_node as int,
        forall|l: int|
            0 <= l < map@.len() ==> {
                &&& #[trigger] map@[l] / per_node == conn@[l / per_node as int]
                &&& map@[l] % per_node == l % per_node as int
            },
{
    let n = conn.len() * per_node;
    let mut map: Vec<usize> = Vec::new();
    let mut l: usize = 0;
    while l < n
        invariant
            per_node > 0,
            n == conn@.len() * per_node,
            dofs_fit(conn@, per_node as nat),
            l <= n,
            map@.len() == l,
            forall|m: int|
                0 <= m < l ==> #[trigger] map@[m] as int == element_dof_map(
                    conn@,
                    per_node as nat,
                )[m],
        decreases n - l,
    {
        proof {
            lemma_local_split(l as int, conn@.len() as int, per_node as int);
        }
        let a = l / per_node;
        let c = l % per_node;
        let node = conn[a];
        proof {
            assert(global_dof(per_node as int, node as int, per_node - 1) <= usize::MAX);
            assert(per_node * node + c <= usize::MAX);
        }
        map.push(per_node * node + c);
        l = l + 1;
    }
    proof {
        lemma_element_dof_map_decode(conn@, per_node as nat);
    }
    map
}

/// Each entry of an element DOF map decodes to the element's node and the
/// component of the local DOF: entry `l` divided by `per_node` is the node
/// `conn[l / per_node]`, and its remainder is `l % per_node`.
pub proof fn lemma_element_dof_map_decode(conn: Seq<usize>, per_node: nat)
    requires
        per_node > 0,
    ensures
        element_dof_map(conn, per_node).len() == conn.len() * per_node,
        forall|l: int|
            0 <= l < conn.len() * per_node ==> {
                &&& #[trigger] element_dof_map(conn, per_node)[l] / (per_node as int) == conn[l
                    / per_node as int]
                &&& element_dof_map(conn, per_node)[l] % (per_node as int) == l % per_node as int
                &&& element_dof_map(conn, per_node)[l] == per_node * conn[l / per_node as int] + l
                    % per_node as int
            },
{
    let k = per_node as int;
    assert forall|l: int| 0 <= l < conn.len() * per_node implies {
        &&& #[trigger] element_dof_map(conn, per_node)[l] / k == conn[l / k]
        &&& element_dof_map(conn, per_node)[l] % k == l % k
        &&& element_dof_map(conn, per_node)[l] == per_node * conn[l / k] + l % k
    } by {
        lemma_local_split(l, conn.len() as int, k);
        lemma_global_dof_decode(k, conn[l / k] as int, l % k);
    }
}

/// DOF numbering can be undone: the node of a global DOF is `dof / per_node`
/// and its component is `dof % per_node`.
pub proof fn lemma_global_dof_decode(per_node: int, node: int, comp: int)
    requires
        per_node > 0,
        node >= 0,
        0 <= comp < per_node,
    ensures
        global_dof(per_node, node, comp) / per_node == node,
        global_dof(per_node, node, comp) % per_node == comp,
{
    lemma_mul_is_commutative(per_node, node);
    lemma_fundamental_div_mod_converse(global_dof(per_node, node, comp), per_node, node, comp);
}

/// Two (node, component) pairs have the same global DOF only if they are the same pair.
pub proof fn lemma_global_dof_injective(per_node: int, n1: int, c1: int, n2: int, c2: int)
    requires
        per_node > 0,
        n1 >= 0,
        n2 >= 0,
        0 <= c1 < per_node,
        0 <= c2 < per_node,
        global_dof(per_node, n1, c1) == global_dof(per_node, n2, c2),
    ensures
        n1 == n2,
        c1 == c2,
{
    lemma_global_dof_decode(per_node, n1, c1);
    lemma_global_dof_decode(per_node, n2, c2);
}

/// An element whose nodes are pairwise distinct sends its local DOFs to pairwise
/// distinct global DOFs, so assembly never adds two local entries into one slot.
pub proof fn lemma_element_dofs_distinct(conn: Seq<usize>, per_node: nat)
    requires
        per_node > 0,
        conn.no_duplicates(),
    ensures
        element_dof_map(conn, per_node).no_duplicates(),
{
    let k = per_node as int;
    let m = element_dof_map(conn, per_node);
    assert forall|i: int, j: int|
        0 <= i < m.len() && 0 <= j < m.len() && i != j implies m[i] != m[j] by {
        lemma_local_split(i, conn.len() as int, k);
        lemma_local_split(j, conn.len() as int, k);
        if m[i] == m[j] {
            lemma_global_dof_injective(
                k,
                conn[i / k] as int,
                i % k,
                conn[j / k] as int,
                j % k,
            );
            lemma_fundamental_div_mod(i, k);
            lemma_fundamental_div_mod(j, k);
        }
    }
}

/// When every node of the element is below `num_nodes`, every global DOF of the
/// element is below `per_node * num_nodes`, the DOF count of the whole model.
pub proof fn lemma_element_dofs_below(conn: Seq<usize>, per_node: nat, num_nodes: nat)
    requires
        per_node > 0,
        forall|a: int| 0 <= a < conn.len() ==> #[trigger] conn[a] < num_nodes,
    ensures
        forall|l: int|
            0 <= l < conn.len() * per_node ==> #[trigger] element_dof_map(conn, per_node)[l]
                < per_node * num_nodes,
{
    let k = per_node as int;
    assert forall|l: int| 0 <= l < conn.len() * per_node implies #[trigger] element_dof_map(
        conn,
        per_node,
    )[l] < per_node * num_nodes by {
        lemma_local_split(l, conn.len() as int, k);
        let node = conn[l / k] as int;
        lemma_mul_inequality(node + 1, num_nodes as int, k);
        lemma_mul_is_distributive_add_other_way(k, node, 1);
        lemma_mul_is_commutative(k, node + 1);
        lemma_mul_is_commutative(k, num_nodes as int);
    }
}

} // verus!
