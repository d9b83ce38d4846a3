use via::corridors::{SiteClass, TrunkNode};
use via::junctions::derive_junctions;

fn node(class: SiteClass, cell: u32, w: u32) -> TrunkNode {
    TrunkNode { class, cell, x: cell % w, y: cell / w, anchored: true, component: 0 }
}

// A 10-wide grid. Three trunks meet at cell 25: from the pass at 21
// (21, 22, 23, 24, 25), from the mouth at 29 (29, 28, 27, 26, 25), and
// from the head at 5 (5, 15, 25).
fn star() -> (u32, Vec<Vec<u32>>, Vec<(u32, u32)>, Vec<TrunkNode>) {
    let w = 10u32;
    let nodes = vec![
        node(SiteClass::Pass, 21, w),
        node(SiteClass::RiverMouth, 29, w),
        node(SiteClass::HeadOfNavigation, 5, w),
        node(SiteClass::Pass, 25, w),
    ];
    let paths = vec![
        vec![21, 22, 23, 24, 25],
        vec![29, 28, 27, 26, 25],
        vec![5, 15, 25],
    ];
    let ends = vec![(0, 3), (1, 3), (2, 3)];
    (w, paths, ends, nodes)
}

#[test]
fn three_trunks_meet_at_one_junction() {
    let (w, paths, ends, nodes) = star();
    let js = derive_junctions(w, &paths, &ends, &nodes);
    let cells: Vec<u32> = js.iter().map(|j| j.cell).collect();
    // The hub, of degree 3, and the three far ends, of degree 1.
    assert_eq!(cells, vec![5, 21, 25, 29]);
    let hub = &js[2];
    assert_eq!((hub.x, hub.y, hub.degree), (5, 2, 3));
    assert_eq!(hub.edges, vec![0, 1, 2]);
    assert_eq!((js[0].degree, js[0].edges.clone()), (1, vec![2]));
    assert_eq!((js[1].x, js[1].y), (1, 2));
}

#[test]
fn a_crossing_without_ends_is_a_junction_by_degree() {
    // Two trunks cross at 44 on a 10-wide grid; their ends are elsewhere.
    let w = 10u32;
    let nodes = vec![
        node(SiteClass::Pass, 42, w),
        node(SiteClass::Pass, 46, w),
        node(SiteClass::Pass, 24, w),
        node(SiteClass::Pass, 64, w),
    ];
    let paths = vec![vec![42, 43, 44, 45, 46], vec![24, 34, 44, 54, 64]];
    let ends = vec![(0, 1), (2, 3)];
    let js = derive_junctions(w, &paths, &ends, &nodes);
    let cells: Vec<u32> = js.iter().map(|j| j.cell).collect();
    assert_eq!(cells, vec![24, 42, 44, 46, 64]);
    let crossing = &js[2];
    assert_eq!(crossing.degree, 4);
    assert_eq!(crossing.edges, vec![0, 1]);
}

#[test]
fn repeated_cells_and_shared_steps_count_once() {
    // A path that stalls on a cell, and two trunks sharing a step: the
    // union graph has each neighbour once.
    let w = 10u32;
    let nodes = vec![node(SiteClass::Pass, 1, w), node(SiteClass::Pass, 3, w)];
    let paths = vec![vec![1, 2, 2, 3], vec![3, 2, 1]];
    let ends = vec![(0, 1), (1, 0)];
    let js = derive_junctions(w, &paths, &ends, &nodes);
    let cells: Vec<u32> = js.iter().map(|j| j.cell).collect();
    // Cell 2 has degree 2 and is no end: not a junction.
    assert_eq!(cells, vec![1, 3]);
    assert_eq!(js[0].degree, 1);
    assert_eq!(js[0].edges, vec![0, 1]);
}

#[test]
fn an_end_without_a_step_is_not_a_vertex() {
    let w = 4u32;
    let nodes = vec![node(SiteClass::Pass, 5, w)];
    let paths = vec![vec![5], vec![5, 5]];
    let ends = vec![(0, 0), (0, 0)];
    assert!(derive_junctions(w, &paths, &ends, &nodes).is_empty());
}
