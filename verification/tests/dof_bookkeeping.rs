use frame_on_faer::assembly::scatter_add;
use frame_on_faer::dofs::element_dofs;
use frame_on_faer::partition::free_dofs;
use frame_on_faer::transfer::{expand, load_vector, restrict, restrict_matrix};

#[test]
fn frame_element_dofs_first_member() {
    assert_eq!(element_dofs(&[0, 1], 3), vec![0, 1, 2, 3, 4, 5]);
}

#[test]
fn frame_element_dofs_second_member() {
    assert_eq!(element_dofs(&[1, 2], 3), vec![3, 4, 5, 6, 7, 8]);
}

#[test]
fn frame_element_dofs_reversed_nodes() {
    assert_eq!(element_dofs(&[2, 0], 3), vec![6, 7, 8, 0, 1, 2]);
}

#[test]
fn triangle_element_dofs_plane_stress() {
    assert_eq!(element_dofs(&[0, 1, 2], 2), vec![0, 1, 2, 3, 4, 5]);
    assert_eq!(element_dofs(&[0, 2, 3], 2), vec![0, 1, 4, 5, 6, 7]);
}

#[test]
fn element_dofs_decode_to_node_and_component() {
    let map = element_dofs(&[5, 9], 3);
    for (l, &d) in map.iter().enumerate() {
        let node = [5usize, 9][l / 3];
        assert_eq!(d / 3, node);
        assert_eq!(d % 3, l % 3);
    }
}

#[test]
fn element_dofs_empty_element() {
    assert_eq!(element_dofs(&[], 3), Vec::<usize>::new());
}

#[test]
fn free_dofs_cantilever() {
    assert_eq!(free_dofs(6, &[0, 1, 2]), vec![3, 4, 5]);
}

#[test]
fn free_dofs_simply_supported_beam() {
    assert_eq!(free_dofs(9, &[0, 1, 7]), vec![2, 3, 4, 5, 6, 8]);
}

#[test]
fn free_dofs_patch_test() {
    assert_eq!(free_dofs(8, &[0, 1, 6]), vec![2, 3, 4, 5, 7]);
}

#[test]
fn free_dofs_unsorted_repeated_and_out_of_range_fixed() {
    assert_eq!(free_dofs(5, &[4, 1, 4, 17]), vec![0, 2, 3]);
}

#[test]
fn free_dofs_nothing_fixed_and_everything_fixed() {
    assert_eq!(free_dofs(4, &[]), vec![0, 1, 2, 3]);
    assert_eq!(free_dofs(3, &[2, 0, 1]), Vec::<usize>::new());
    assert_eq!(free_dofs(0, &[0]), Vec::<usize>::new());
}

#[test]
fn free_and_fixed_partition_all_dofs() {
    let fixed = [0usize, 1, 7];
    let free = free_dofs(9, &fixed);
    for d in 0..9usize {
        assert!(free.contains(&d) != fixed.contains(&d));
    }
    for w in free.windows(2) {
        assert!(w[0] < w[1]);
    }
}

#[test]
fn restrict_picks_free_entries() {
    let full = [10i64, 11, 12, 13, 14, 15];
    assert_eq!(restrict(&full, &[3, 4, 5]), vec![13, 14, 15]);
    assert_eq!(restrict(&full, &[5, 0, 5]), vec![15, 10, 15]);
    assert_eq!(restrict(&full, &[]), Vec::<i64>::new());
}

#[test]
fn restrict_matrix_picks_free_block() {
    let full: Vec<Vec<i64>> = (0..4).map(|a| (0..4).map(|b| 10 * a + b).collect()).collect();
    let block = restrict_matrix(&full, &[1, 3]);
    assert_eq!(block, vec![vec![11, 13], vec![31, 33]]);
}

#[test]
fn expand_places_reduced_values() {
    let u = expand(&[1.5f64, -2.0, 4.0], &[3, 4, 5], 6, 0.0);
    assert_eq!(u, vec![0.0, 0.0, 0.0, 1.5, -2.0, 4.0]);
}

#[test]
fn expand_repeated_dof_keeps_last_value() {
    let u = expand(&[1i32, 2, 3], &[2, 0, 2], 4, -1);
    assert_eq!(u, vec![2, -1, 3, -1]);
}

#[test]
fn expand_then_restrict_round_trip() {
    let free = free_dofs(9, &[0, 1, 7]);
    let reduced = vec![2i64, 3, 4, 5, 6, 8];
    let full = expand(&reduced, &free, 9, 0);
    assert_eq!(restrict(&full, &free), reduced);
}

#[test]
fn restrict_then_expand_zeroes_fixed_dofs() {
    let free = free_dofs(6, &[0, 1, 2]);
    let full = vec![7i64, 8, 9, 10, 11, 12];
    let back = expand(&restrict(&full, &free), &free, 6, 0);
    assert_eq!(back, vec![0, 0, 0, 10, 11, 12]);
}

#[test]
fn load_vector_cantilever_tip_load() {
    let f = load_vector(6, &[(4, -1000.0f64)], 0.0);
    assert_eq!(f, vec![0.0, 0.0, 0.0, 0.0, -1000.0, 0.0]);
}

#[test]
fn load_vector_repeated_dof_keeps_last_value() {
    let f = load_vector(3, &[(1, 5i32), (2, 7), (1, 9)], 0);
    assert_eq!(f, vec![0, 9, 7]);
}

#[test]
fn load_vector_without_loads() {
    assert_eq!(load_vector(2, &[], 0u8), vec![0, 0]);
}

fn zeros(n: usize) -> Vec<Vec<i64>> {
    vec![vec![0; n]; n]
}

#[test]
fn scatter_add_two_member_beam_shares_middle_node() {
    let mut kk = zeros(9);
    let ke: Vec<Vec<i64>> = (0..6).map(|r| (0..6).map(|c| 1 + r * 6 + c).collect()).collect();
    for conn in [[0usize, 1], [1, 2]] {
        let map = element_dofs(&conn, 3);
        scatter_add(&mut kk, &map, &ke, &|x: i64, y: i64| x + y);
    }
    // DOF 3 belongs to node 1, shared by both members: local 3 of the first, local 0 of the second.
    assert_eq!(kk[3][3], ke[3][3] + ke[0][0]);
    assert_eq!(kk[0][0], ke[0][0]);
    assert_eq!(kk[8][8], ke[5][5]);
    assert_eq!(kk[0][8], 0);
    assert_eq!(kk[2][4], ke[2][4]);
}

#[test]
fn scatter_add_leaves_unreached_entries() {
    let mut kk = vec![vec![5i64; 4]; 4];
    let ke = vec![vec![1i64, 2], vec![3, 4]];
    scatter_add(&mut kk, &[2, 0], &ke, &|x: i64, y: i64| x + y);
    assert_eq!(
        kk,
        vec![vec![9, 5, 8, 5], vec![5, 5, 5, 5], vec![7, 5, 6, 5], vec![5, 5, 5, 5]]
    );
}

#[test]
fn scatter_add_repeated_dof_accumulates() {
    let mut kk = vec![vec![0i64; 2]; 2];
    let ke = vec![vec![1i64, 2], vec![3, 4]];
    scatter_add(&mut kk, &[1, 1], &ke, &|x: i64, y: i64| x + y);
    assert_eq!(kk, vec![vec![0, 0], vec![0, 10]]);
}

#[test]
fn scatter_add_floats() {
    let mut kk = vec![vec![0.0f64; 3]; 3];
    let ke = vec![vec![2.0f64, -1.0], vec![-1.0, 2.0]];
    scatter_add(&mut kk, &[0, 1], &ke, &|x: f64, y: f64| x + y);
    scatter_add(&mut kk, &[1, 2], &ke, &|x: f64, y: f64| x + y);
    assert_eq!(kk, vec![vec![2.0, -1.0, 0.0], vec![-1.0, 4.0, -1.0], vec![0.0, -1.0, 2.0]]);
}

#[test]
fn expand_over_free_dofs_zero_at_supports() {
    let fixed = [0usize, 1, 7];
    let free = free_dofs(9, &fixed);
    let u = expand(&[1i64, 2, 3, 4, 5, 6], &free, 9, 0);
    for &d in &fixed {
        assert_eq!(u[d], 0);
    }
    for (i, &d) in free.iter().enumerate() {
        assert_eq!(u[d], (i + 1) as i64);
    }
}

#[test]
fn distinct_nodes_give_distinct_element_dofs() {
    let map = element_dofs(&[4, 0, 7], 3);
    for a in 0..map.len() {
        for b in 0..map.len() {
            if a != b {
                assert_ne!(map[a], map[b]);
            }
        }
    }
    assert!(map.iter().all(|&d| d < 3 * 8));
}
