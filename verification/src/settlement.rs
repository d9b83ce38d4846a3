//! Settlement stage, integer core: output namespacing and the weakly
//! connected components of the settlement cost graph.

use vstd::prelude::*;

use crate::components::{count_first, edge_graph, edge_upto, first_member, label_components};
use crate::connect::{connected, lemma_connected_mono};
use crate::text::{is_valid_label, join, join_spec, valid_label, InvalidLabel};

verus! {

/// Settlement labels must be non-empty ASCII lower-case letters, digits
/// or underscores (no hyphen).
pub fn validate_label(label: &str) -> (r: Result<(), InvalidLabel>)
    ensures
        r is Ok <==> valid_label(label@, false),
{
    if is_valid_label(label, false) {
        Ok(())
    } else {
        Err(InvalidLabel)
    }
}

/// Namespaced stage-summary filename: `settlement.<label>.json`.
pub fn summary_filename(label: &str) -> (r: String)
    ensures
        r@ == "settlement."@ + label@ + ".json"@,
{
    let parts = ["settlement.", label, ".json"];
    let r = join(&parts);
    proof {
        assert(parts@ =~= seq!["settlement.", label, ".json"]);
        reveal_with_fuel(join_spec, 4);
    }
    r
}

/// `u` and `v` are joined by an arc in either direction.
pub open spec fn arc_adj(arcs: Seq<Vec<u32>>, u: int, v: int) -> bool {
    0 <= u < arcs.len() && 0 <= v < arcs.len() && (arcs[u]@.contains(v as u32) || arcs[v]@.contains(u as u32))
}

/// The undirected graph of the arcs.
pub open spec fn arc_graph(arcs: Seq<Vec<u32>>) -> spec_fn(int, int) -> bool {
    |u: int, v: int| arc_adj(arcs, u, v)
}

/// `s` is the smallest vertex of its weak component.
pub open spec fn first_vertex(arcs: Seq<Vec<u32>>, s: int) -> bool {
    forall|x: int| 0 <= x < s ==> !#[trigger] connected(arc_graph(arcs), x, s)
}

/// Number of components whose smallest vertex is below `k`.
pub open spec fn count_first_vertices(arcs: Seq<Vec<u32>>, k: int) -> nat
    decreases k,
{
    if k <= 0 {
        0
    } else if first_vertex(arcs, k - 1) {
        count_first_vertices(arcs, k - 1) + 1
    } else {
        count_first_vertices(arcs, k - 1)
    }
}

proof fn lemma_count_first_same(arcs: Seq<Vec<u32>>, edges: Seq<(u32, u32)>, member: Seq<bool>, k: int)
    requires
        0 <= k <= member.len(),
        forall|x: int| 0 <= x < member.len() ==> #[trigger] member[x],
        forall|x: int| 0 <= x < member.len() ==> (#[trigger] first_member(edges, member, x) <==> first_vertex(arcs, x)),
    ensures
        count_first(edges, member, k) == count_first_vertices(arcs, k),
    decreases k,
{
    if k > 0 {
        lemma_count_first_same(arcs, edges, member, k - 1);
        assert(first_member(edges, member, k - 1) <==> first_vertex(arcs, k - 1));
    }
}

/// Weakly connected components of the arc graph, labelled `0, 1, …` in
/// order of each component's smallest vertex. Derived from the arcs
/// themselves: vertices spliced into edge paths belong to components too.
pub fn components(arcs: &Vec<Vec<u32>>) -> (comp: Vec<i32>)
    requires
        arcs@.len() <= i32::MAX,
        forall|u: int, j: int|
            0 <= u < arcs@.len() && 0 <= j < arcs@[u]@.len() ==> (#[trigger] arcs@[u]@[j] as int) < arcs@.len(),
    ensures
        comp@.len() == arcs@.len(),
        forall|u: int, v: int|
            #![trigger comp@[u], comp@[v]]
            0 <= u < arcs@.len() && 0 <= v < arcs@.len() ==> (comp@[u] == comp@[v] <==> connected(
                arc_graph(arcs@),
                u,
                v,
            )),
        forall|s: int| 0 <= s < arcs@.len() && first_vertex(arcs@, s) ==> #[trigger] comp@[s] == count_first_vertices(arcs@, s),
{
    let n = arcs.len();
    let ghost av = arcs@;
    let mut edges: Vec<(u32, u32)> = Vec::new();
    let mut u: usize = 0;
    while u < n
        invariant
            u <= n,
            n == av.len(),
            av == arcs@,
            n <= i32::MAX,
            forall|a: int, j: int| 0 <= a < n && 0 <= j < av[a]@.len() ==> (#[trigger] av[a]@[j] as int) < n,
            forall|e: int| 0 <= e < edges@.len() ==> (#[trigger] edges@[e].0 as int) < u && av[edges@[e].0 as int]@.contains(edges@[e].1),
            forall|a: int, j: int| 0 <= a < u && 0 <= j < av[a]@.len() ==> #[trigger] edge_upto(edges@, edges@.len() as int, a, av[a]@[j] as int),
        decreases n - u,
    {
        let out = &arcs[u];
        let mut j: usize = 0;
        while j < out.len()
            invariant
                u < n,
                n <= i32::MAX,
                n == av.len(),
                av == arcs@,
                out@ == av[u as int]@,
                j <= out@.len(),
                forall|a: int, t: int| 0 <= a < n && 0 <= t < av[a]@.len() ==> (#[trigger] av[a]@[t] as int) < n,
                forall|e: int| 0 <= e < edges@.len() ==> (#[trigger] edges@[e].0 as int) <= u && av[edges@[e].0 as int]@.contains(edges@[e].1),
                forall|a: int, t: int| 0 <= a < u && 0 <= t < av[a]@.len() ==> #[trigger] edge_upto(edges@, edges@.len() as int, a, av[a]@[t] as int),
                forall|t: int| 0 <= t < j ==> #[trigger] edge_upto(edges@, edges@.len() as int, u as int, out@[t] as int),
            decreases out@.len() - j,
        {
            let ghost e0 = edges@;
            edges.push((u as u32, out[j]));
            proof {
                assert forall|e: int| 0 <= e < edges@.len() implies (#[trigger] edges@[e].0 as int) <= u && av[edges@[e].0 as int]@.contains(edges@[e].1) by {
                    if e < e0.len() {
                        assert(edges@[e] == e0[e]);
                    } else {
                        assert(out@[j as int] == av[u as int]@[j as int]);
                    }
                }
                assert forall|a: int, t: int| 0 <= a < u && 0 <= t < av[a]@.len() implies #[trigger] edge_upto(edges@, edges@.len() as int, a, av[a]@[t] as int) by {
                    assert(edge_upto(e0, e0.len() as int, a, av[a]@[t] as int));
                    let e = choose|e: int| 0 <= e < e0.len() && ((#[trigger] e0[e].0 as int == a && e0[e].1 as int == av[a]@[t] as int) || (e0[e].0 as int == av[a]@[t] as int && e0[e].1 as int == a));
                    assert(edges@[e] == e0[e]);
                }
                assert forall|t: int| 0 <= t < j + 1 implies #[trigger] edge_upto(edges@, edges@.len() as int, u as int, out@[t] as int) by {
                    if t < j {
                        assert(edge_upto(e0, e0.len() as int, u as int, out@[t] as int));
                        let e = choose|e: int| 0 <= e < e0.len() && ((#[trigger] e0[e].0 as int == u as int && e0[e].1 as int == out@[t] as int) || (e0[e].0 as int == out@[t] as int && e0[e].1 as int == u as int));
                        assert(edges@[e] == e0[e]);
                    } else {
                        assert(edges@[e0.len() as int] == (u as u32, out@[j as int]));
                        assert(edges@[e0.len() as int].0 as int == u as int && edges@[e0.len() as int].1 as int
                            == out@[t] as int);
                    }
                }
            }
            j = j + 1;
        }
        u = u + 1;
    }
    let mut member: Vec<bool> = Vec::new();
    let mut i: usize = 0;
    while i < n
        invariant
            i <= n,
            member@.len() == i,
            forall|x: int| 0 <= x < i ==> #[trigger] member@[x],
        decreases n - i,
    {
        member.push(true);
        i = i + 1;
    }
    proof {
        assert forall|e: int| 0 <= e < edges@.len() implies (#[trigger] edges@[e].0 as int) < n && (edges@[e].1 as int) < n by {
            let a = edges@[e].0 as int;
            let t = choose|t: int| 0 <= t < av[a]@.len() && av[a]@[t] == edges@[e].1;
        }
    }
    let comp = label_components(n, edges.as_slice(), member.as_slice());
    proof {
        let ge = edge_graph(edges@, edges@.len() as int);
        let ga = arc_graph(av);
        assert forall|x: int, y: int| #[trigger] ge(x, y) implies ga(x, y) by {
            let e = choose|e: int| 0 <= e < edges@.len() && ((#[trigger] edges@[e].0 as int == x && edges@[e].1 as int == y) || (edges@[e].0 as int == y && edges@[e].1 as int == x));
            let a = edges@[e].0 as int;
            assert(av[a]@.contains(edges@[e].1));
            let t = choose|t: int| 0 <= t < av[a]@.len() && av[a]@[t] == edges@[e].1;
        }
        assert forall|x: int, y: int| #[trigger] ga(x, y) implies ge(x, y) by {
            if av[x]@.contains(y as u32) {
                let t = choose|t: int| 0 <= t < av[x]@.len() && av[x]@[t] == y as u32;
                assert(edge_upto(edges@, edges@.len() as int, x, av[x]@[t] as int));
            } else {
                let t = choose|t: int| 0 <= t < av[y]@.len() && av[y]@[t] == x as u32;
                assert(edge_upto(edges@, edges@.len() as int, y, av[y]@[t] as int));
                let e = choose|e: int| 0 <= e < edges@.len() && ((#[trigger] edges@[e].0 as int == y && edges@[e].1 as int == x) || (edges@[e].0 as int == x && edges@[e].1 as int == y));
                assert(edge_upto(edges@, edges@.len() as int, x, y));
            }
        }
        assert forall|x: int, y: int| connected(ge, x, y) <==> #[trigger] connected(ga, x, y) by {
            if connected(ge, x, y) {
                lemma_connected_mono(ge, ga, x, y);
            }
            if connected(ga, x, y) {
                lemma_connected_mono(ga, ge, x, y);
            }
        }
        assert forall|x: int| 0 <= x < n implies (#[trigger] first_member(edges@, member@, x) <==> first_vertex(av, x)) by {
            assert forall|z: int| 0 <= z < x implies (connected(ge, z, x) <==> #[trigger] connected(ga, z, x)) by {}
            if first_vertex(av, x) {
                assert forall|z: int| 0 <= z < x && #[trigger] member@[z] implies !connected(ge, z, x) by {
                    assert(!connected(ga, z, x));
                }
            }
            if first_member(edges@, member@, x) {
                assert forall|z: int| 0 <= z < x implies !#[trigger] connected(ga, z, x) by {
                    assert(member@[z]);
                }
            }
        }
        assert forall|s: int| 0 <= s < n && first_vertex(av, s) implies #[trigger] comp@[s] == count_first_vertices(av, s) by {
            lemma_count_first_same(av, edges@, member@, s);
        }
        assert forall|x: int, y: int|
            #![trigger comp@[x], comp@[y]]
            0 <= x < n && 0 <= y < n implies (comp@[x] == comp@[y] <==> connected(ga, x, y)) by {
            assert(member@[x] && member@[y]);
            assert(connected(ge, x, y) <==> connected(ga, x, y));
        }
    }
    comp
}

} // verus!
