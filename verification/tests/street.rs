use via::bench::{Class, Edge};
use via::street::{add_edge_raw, simplify, split_edge, Simple};

/// Builds the edge list and per-node incidence lists of a graph with
/// `n` nodes, as the planar graph keeps them.
fn graph(n: usize, pairs: &[(usize, usize)]) -> (Vec<Edge>, Vec<Vec<usize>>) {
    let mut edges = Vec::new();
    let mut incident = vec![Vec::new(); n];
    for (i, &(a, b)) in pairs.iter().enumerate() {
        edges.push(Edge { a, b, class: Class::Street });
        incident[a].push(i);
        incident[b].push(i);
    }
    (edges, incident)
}

fn street_length(s: &Simple, k: usize, pts: &[[f64; 2]]) -> f64 {
    s.chains[k]
        .path
        .windows(2)
        .map(|w| {
            let (p, q) = (pts[w[0]], pts[w[1]]);
            ((q[0] - p[0]).powi(2) + (q[1] - p[1]).powi(2)).sqrt()
        })
        .sum()
}

#[test]
fn simplify_dissolves_degree_two_vertices() {
    // A polyline a-b-c-d: b and c are geometry vertices, not junctions.
    let pts = [[0.0, 0.0], [10.0, 0.0], [20.0, 5.0], [30.0, 5.0]];
    let (edges, incident) = graph(4, &[(0, 1), (1, 2), (2, 3)]);
    let s = simplify(&edges, &incident);
    assert_eq!(s.nodes.len(), 2, "only the two endpoints survive");
    assert_eq!(s.chains.len(), 1);
    let expected = 10.0 + (100.0f64 + 25.0).sqrt() + 10.0;
    assert!((street_length(&s, 0, &pts) - expected).abs() < 1e-9);
    assert_eq!(s.chains[0].path.len(), 4);
    assert_eq!(s.chains[0].path, vec![0, 1, 2, 3]);
    assert_eq!((s.chains[0].a, s.chains[0].b), (0, 1));
    assert_eq!(s.degree(0), 1);
}

#[test]
fn a_crossing_keeps_four_streets() {
    // Centre 0 with four arms, each through one degree-2 node to a dead end.
    let (edges, incident) = graph(9, &[(0, 1), (1, 2), (0, 3), (3, 4), (5, 0), (5, 6), (0, 7), (7, 8)]);
    let s = simplify(&edges, &incident);
    assert_eq!(s.nodes, vec![0, 2, 4, 6, 8]);
    let paths: Vec<Vec<usize>> = s.chains.iter().map(|c| c.path.clone()).collect();
    assert_eq!(paths, vec![vec![0, 1, 2], vec![0, 3, 4], vec![0, 5, 6], vec![0, 7, 8]]);
    assert_eq!(s.incident[0], vec![0, 1, 2, 3]);
    assert_eq!(s.incident[2], vec![1]);
    assert_eq!(s.degree(0), 4);
}

#[test]
fn a_loop_is_one_street_from_its_first_edge() {
    // Junction 0 (degree 3): a dead-end branch to 1, and a loop 0-2-3-0.
    let (edges, incident) = graph(4, &[(0, 1), (0, 2), (2, 3), (3, 0)]);
    let s = simplify(&edges, &incident);
    assert_eq!(s.nodes, vec![0, 1]);
    let paths: Vec<Vec<usize>> = s.chains.iter().map(|c| c.path.clone()).collect();
    assert_eq!(paths, vec![vec![0, 1], vec![0, 2, 3, 0]]);
    assert_eq!((s.chains[1].a, s.chains[1].b), (0, 0));
    // The loop counts once at its node.
    assert_eq!(s.incident[0], vec![0, 1]);
}

#[test]
fn streets_are_listed_from_their_first_end() {
    // Two junctions 0 and 5 (degree 3 each) joined by three streets; the
    // streets are listed from node 0 only.
    let (edges, incident) = graph(
        8,
        &[(0, 1), (1, 5), (0, 2), (2, 5), (0, 3), (3, 4), (4, 5)],
    );
    let s = simplify(&edges, &incident);
    assert_eq!(s.nodes, vec![0, 5, 6, 7]);
    let paths: Vec<Vec<usize>> = s.chains.iter().map(|c| c.path.clone()).collect();
    assert_eq!(paths, vec![vec![0, 1, 5], vec![0, 2, 5], vec![0, 3, 4, 5]]);
    assert_eq!(s.incident[1], vec![0, 1, 2]);
}

#[test]
fn a_ring_without_junctions_has_no_streets() {
    let (edges, incident) = graph(3, &[(0, 1), (1, 2), (2, 0)]);
    let s = simplify(&edges, &incident);
    assert!(s.nodes.is_empty());
    assert!(s.chains.is_empty());
}

#[test]
fn splitting_at_a_crossing_makes_a_planar_junction() {
    // Nodes 0 and 1 west and east, 2 and 3 south and north, 4 the centre.
    let mut edges: Vec<Edge> = Vec::new();
    let mut incident: Vec<Vec<usize>> = vec![Vec::new(); 5];
    add_edge_raw(&mut edges, &mut incident, 0, 1, Class::Street);
    // The north-south street crosses it at the centre: split, then join.
    assert_eq!(split_edge(&mut edges, &mut incident, 0, 4), 4);
    add_edge_raw(&mut edges, &mut incident, 2, 4, Class::Street);
    add_edge_raw(&mut edges, &mut incident, 4, 3, Class::Street);
    assert_eq!(edges.len(), 4);
    assert_eq!(incident[4].len(), 4);
    assert_eq!((edges[0].a, edges[0].b), (0, 4));
    assert_eq!((edges[1].a, edges[1].b), (4, 1));
    assert_eq!(incident[1], vec![1]);
    let s = simplify(&edges, &incident);
    assert_eq!(s.nodes, vec![0, 1, 2, 3, 4]);
    assert_eq!(s.chains.len(), 4);
    assert_eq!(s.degree(4), 4);
}

#[test]
fn loops_and_repeated_edges_are_not_added() {
    let mut edges: Vec<Edge> = Vec::new();
    let mut incident: Vec<Vec<usize>> = vec![Vec::new(); 3];
    add_edge_raw(&mut edges, &mut incident, 0, 1, Class::Lane);
    add_edge_raw(&mut edges, &mut incident, 1, 0, Class::Street);
    add_edge_raw(&mut edges, &mut incident, 2, 2, Class::Street);
    assert_eq!(edges.len(), 1);
    assert_eq!(edges[0].class, Class::Lane);
    assert_eq!(incident, vec![vec![0], vec![0], vec![]]);
    // Splitting at an end of the edge changes nothing.
    assert_eq!(split_edge(&mut edges, &mut incident, 0, 1), 1);
    assert_eq!(edges.len(), 1);
    assert_eq!(incident, vec![vec![0], vec![0], vec![]]);
}
