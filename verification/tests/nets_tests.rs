use gdsverify::lvs::nets::nets_of_nodes;

#[test]
fn nets_are_numbered_by_first_node() {
    let (net, count) = nets_of_nodes(6, &vec![(3, 5), (1, 4), (4, 3)]);
    assert_eq!(net, vec![0, 1, 2, 1, 1, 1]);
    assert_eq!(count, 3);
}

#[test]
fn unjoined_nodes_each_get_a_net() {
    let (net, count) = nets_of_nodes(3, &vec![]);
    assert_eq!(net, vec![0, 1, 2]);
    assert_eq!(count, 3);
    assert_eq!(nets_of_nodes(0, &vec![]), (vec![], 0));
}

#[test]
fn chains_of_pairs_join_transitively() {
    let (net, count) = nets_of_nodes(5, &vec![(0, 2), (2, 4), (1, 1)]);
    assert_eq!(net, vec![0, 1, 0, 2, 0]);
    assert_eq!(count, 3);
}
