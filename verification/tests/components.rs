use via::corridors::reachable_components;
use via::settlement::components;

#[test]
fn weak_components_follow_arcs_in_either_direction() {
    // 0 -> 1, 3 -> 1 (reverse arc joins 3), 2 alone, 4 -> 5.
    let arcs = vec![vec![1], vec![], vec![], vec![1], vec![5], vec![]];
    assert_eq!(components(&arcs), vec![0, 0, 1, 0, 2, 2]);
}

#[test]
fn isolated_vertices_each_get_their_own_component() {
    let arcs: Vec<Vec<u32>> = vec![vec![], vec![], vec![]];
    assert_eq!(components(&arcs), vec![0, 1, 2]);
    assert_eq!(components(&Vec::new()), Vec::<i32>::new());
}

#[test]
fn reachable_components_skip_unanchored_nodes() {
    // 4 nodes; pairs (0,2) and (2,3) linked; node 1 unanchored.
    let s = 4;
    let mut linked = vec![false; s * s];
    linked[0 * s + 2] = true;
    linked[2 * s + 3] = true;
    let anchored = vec![true, false, true, true];
    assert_eq!(reachable_components(s, &linked, &anchored), vec![0, -1, 0, 0]);
    // Unlink (2,3): node 3 is isolated and stays in component -1.
    linked[2 * s + 3] = false;
    assert_eq!(reachable_components(s, &linked, &anchored), vec![0, -1, 0, -1]);
}

#[test]
fn component_ids_follow_first_anchored_node() {
    // 0 unanchored but linked to 3; ids start at the first anchored node.
    let s = 4;
    let mut linked = vec![false; s * s];
    linked[0 * s + 3] = true;
    linked[1 * s + 2] = true;
    let anchored = vec![false, true, true, true];
    assert_eq!(reachable_components(s, &linked, &anchored), vec![-1, 0, 0, 1]);
}

#[test]
fn an_isolated_anchored_node_stays_in_component_minus_one() {
    // Node 1 is anchored but linked to nothing; nodes 0 and 2 are linked.
    let s = 3;
    let mut linked = vec![false; s * s];
    linked[0 * s + 2] = true;
    assert_eq!(reachable_components(s, &linked, &[true, true, true]), vec![0, -1, 0]);
}
