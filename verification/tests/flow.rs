use via::flow::{accumulate_area, build_stack, label_basins, strahler_orders, DonorGraph};

// 6 cells: two ocean cells (0, 5). Basin of 0: 1 -> 0, 2 -> 1, 3 -> 1.
// Basin of 5: 4 -> 5.
fn forest() -> Vec<u32> {
    vec![0, 0, 1, 1, 5, 5]
}

#[test]
fn donor_lists_are_ascending_and_exact() {
    let rc = forest();
    let g = DonorGraph::build(&rc);
    assert_eq!(g.donors(0), &[1]);
    assert_eq!(g.donors(1), &[2, 3]);
    assert_eq!(g.donors(2), &[] as &[u32]);
    assert_eq!(g.donors(5), &[4]);
}

#[test]
fn stack_lists_every_cell_after_its_receiver() {
    let rc = forest();
    let g = DonorGraph::build(&rc);
    let stack = build_stack(&rc, &g);
    assert_eq!(stack.len(), 6);
    let pos = |c: u32| stack.iter().position(|&s| s == c).unwrap();
    for c in 0..6u32 {
        if rc[c as usize] != c {
            assert!(pos(rc[c as usize]) < pos(c));
        }
    }
    // Depth first from each base cell; the last-listed donor is visited first.
    assert_eq!(stack, vec![0, 1, 3, 2, 5, 4]);
}

#[test]
fn accumulation_counts_upslope_cells() {
    let rc = forest();
    let g = DonorGraph::build(&rc);
    let stack = build_stack(&rc, &g);
    let area = accumulate_area(&rc, &stack);
    assert_eq!(area, vec![4, 3, 1, 1, 1, 2]);
    // Mass is conserved: the base cells carry every cell once.
    assert_eq!(area[0] + area[5], 6);
}

#[test]
fn basins_are_labelled_by_their_outlet() {
    let rc = forest();
    let g = DonorGraph::build(&rc);
    let stack = build_stack(&rc, &g);
    assert_eq!(label_basins(&rc, &stack), vec![0, 0, 0, 0, 5, 5]);
}

#[test]
fn strahler_orders_rise_where_equal_orders_meet() {
    let rc = forest();
    let g = DonorGraph::build(&rc);
    let stack = build_stack(&rc, &g);
    let river = vec![false, true, true, true, true, false];
    let order = strahler_orders(&rc, &stack, &g, &river);
    assert_eq!(order, vec![0, 2, 1, 1, 1, 0]);
}

#[test]
fn a_receiver_cycle_is_left_off_the_stack() {
    // 1 <-> 2 form a cycle that never drains; 0 is ocean.
    let rc = vec![0u32, 2, 1];
    let g = DonorGraph::build(&rc);
    let stack = build_stack(&rc, &g);
    assert_eq!(stack, vec![0]);
}
