use lau_adinkra::connected_components;

fn links(n: usize, pairs: &[(usize, usize)]) -> Vec<Vec<bool>> {
    let mut m = vec![vec![false; n]; n];
    for &(a, b) in pairs {
        m[a][b] = true;
        m[b][a] = true;
    }
    m
}

#[test]
fn no_nodes_no_groups() {
    assert!(connected_components(&vec![]).is_empty());
}

#[test]
fn unlinked_nodes_stand_alone() {
    assert_eq!(connected_components(&links(3, &[])), vec![vec![0], vec![1], vec![2]]);
}

#[test]
fn single_linkage_chains_through_neighbours() {
    // 0-2 and 2-4 link; 0 and 4 are not linked directly but share a group.
    let groups = connected_components(&links(5, &[(0, 2), (2, 4)]));
    assert_eq!(groups, vec![vec![0, 2, 4], vec![1], vec![3]]);
}

#[test]
fn groups_ordered_by_first_member() {
    let groups = connected_components(&links(6, &[(3, 5), (1, 4), (0, 3)]));
    assert_eq!(groups, vec![vec![0, 3, 5], vec![1, 4], vec![2]]);
}

#[test]
fn only_upper_triangle_is_read() {
    let mut m = vec![vec![false; 3]; 3];
    m[2][0] = true; // below the diagonal: ignored
    assert_eq!(connected_components(&m), vec![vec![0], vec![1], vec![2]]);
    m[0][2] = true;
    assert_eq!(connected_components(&m), vec![vec![0, 2], vec![1]]);
}

#[test]
fn everything_linked_is_one_group() {
    let groups = connected_components(&links(4, &[(0, 1), (1, 2), (2, 3), (0, 3)]));
    assert_eq!(groups, vec![vec![0, 1, 2, 3]]);
}

#[test]
fn more_links_give_coarser_groups() {
    let sparse = connected_components(&links(5, &[(0, 1)]));
    let dense = connected_components(&links(5, &[(0, 1), (1, 3), (2, 4)]));
    assert_eq!(sparse, vec![vec![0, 1], vec![2], vec![3], vec![4]]);
    assert_eq!(dense, vec![vec![0, 1, 3], vec![2, 4]]);
    assert!(dense.len() <= sparse.len());
    for group in &sparse {
        assert!(dense.iter().any(|d| group.iter().all(|x| d.contains(x))));
    }
}
