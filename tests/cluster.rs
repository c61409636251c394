use layout::cluster::connectivity_groups;

#[test]
fn groups_are_one_hop_only() {
    let g = connectivity_groups(3, &vec![(0, 1), (1, 2)]);
    assert_eq!(g, vec![vec![0, 1], vec![2]]);
}

#[test]
fn isolated_nodes_form_their_own_groups() {
    let g = connectivity_groups(3, &vec![]);
    assert_eq!(g, vec![vec![0], vec![1], vec![2]]);
    assert_eq!(connectivity_groups(0, &vec![]), Vec::<Vec<usize>>::new());
}

#[test]
fn neighbours_join_in_edge_order_either_direction() {
    let g = connectivity_groups(5, &vec![(3, 0), (0, 2), (4, 1), (2, 0), (0, 0)]);
    assert_eq!(g, vec![vec![0, 3, 2], vec![1, 4]]);
}
