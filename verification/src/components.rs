//! Connected components of an undirected graph given as an edge list,
//! labelled `0, 1, 2, …` in order of each component's first member.

use vstd::prelude::*;

use crate::connect::{
    closed, connected, lemma_closed_reach, lemma_connected_mono, lemma_connected_refl,
    lemma_connected_step, lemma_connected_sym, lemma_connected_trans, symmetric,
};
use crate::dsu::{relink, Dsu};

verus! {

/// One of the first `k` edges joins `u` and `v` (in either direction).
pub open spec fn edge_upto(edges: Seq<(u32, u32)>, k: int, u: int, v: int) -> bool {
    exists|e: int|
        0 <= e < k && ((#[trigger] edges[e].0 as int == u && edges[e].1 as int == v) || (edges[e].0 as int
            == v && edges[e].1 as int == u))
}

/// The graph of the first `k` edges.
pub open spec fn edge_graph(edges: Seq<(u32, u32)>, k: int) -> spec_fn(int, int) -> bool {
    |u: int, v: int| edge_upto(edges, k, u, v)
}

/// `s` is a member and no earlier member is connected to it.
pub open spec fn first_member(edges: Seq<(u32, u32)>, member: Seq<bool>, s: int) -> bool {
    &&& member[s]
    &&& forall|x: int|
        0 <= x < s && #[trigger] member[x] ==> !connected(edge_graph(edges, edges.len() as int), x, s)
}

/// Number of first members among `0..k`.
pub open spec fn count_first(edges: Seq<(u32, u32)>, member: Seq<bool>, k: int) -> nat
    decreases k,
{
    if k <= 0 {
        0
    } else if first_member(edges, member, k - 1) {
        count_first(edges, member, k - 1) + 1
    } else {
        count_first(edges, member, k - 1)
    }
}

proof fn lemma_count_first_bound(edges: Seq<(u32, u32)>, member: Seq<bool>, k: int)
    requires
        k >= 0,
    ensures
        count_first(edges, member, k) <= k,
    decreases k,
{
    if k > 0 {
        lemma_count_first_bound(edges, member, k - 1);
    }
}

proof fn lemma_edge_graph_symmetric(edges: Seq<(u32, u32)>, k: int)
    ensures
        symmetric(edge_graph(edges, k)),
{
    assert forall|u: int, v: int| #[trigger] edge_graph(edges, k)(u, v) implies edge_graph(edges, k)(v, u) by {
        let e = choose|e: int|
            0 <= e < k && ((#[trigger] edges[e].0 as int == u && edges[e].1 as int == v) || (edges[e].0 as int
                == v && edges[e].1 as int == u));
        assert(edge_upto(edges, k, v, u));
    }
}

/// Classes of the union-find after the first `k` edges are exactly the
/// connected components of those edges.
pub open spec fn classes_match(edges: Seq<(u32, u32)>, k: int, rep: Seq<u32>) -> bool {
    forall|a: int, b: int|
        #![trigger rep[a], rep[b]]
        0 <= a < rep.len() && 0 <= b < rep.len() ==> (rep[a] == rep[b] <==> connected(edge_graph(edges, k), a, b))
}

proof fn lemma_union_step(edges: Seq<(u32, u32)>, k: int, rep: Seq<u32>)
    requires
        0 <= k < edges.len(),
        (edges[k].0 as int) < rep.len(),
        (edges[k].1 as int) < rep.len(),
        forall|e: int| 0 <= e < edges.len() ==> (#[trigger] edges[e].0 as int) < rep.len() && (edges[e].1 as int) < rep.len(),
        classes_match(edges, k, rep),
    ensures
        classes_match(edges, k + 1, relink(rep, rep[edges[k].1 as int], rep[edges[k].0 as int])),
{
    let a0 = edges[k].0 as int;
    let b0 = edges[k].1 as int;
    let ra = rep[a0];
    let rb = rep[b0];
    let rep2 = relink(rep, rb, ra);
    let g = edge_graph(edges, k);
    let g2 = edge_graph(edges, k + 1);
    let n = rep.len() as int;
    assert forall|u: int, v: int| #[trigger] g(u, v) implies g2(u, v) by {
        let e = choose|e: int|
            0 <= e < k && ((#[trigger] edges[e].0 as int == u && edges[e].1 as int == v) || (edges[e].0 as int
                == v && edges[e].1 as int == u));
        assert(edge_upto(edges, k + 1, u, v));
    }
    assert(g2(a0, b0)) by {
        assert(edge_upto(edges, k + 1, a0, b0));
    }
    lemma_edge_graph_symmetric(edges, k);
    lemma_edge_graph_symmetric(edges, k + 1);
    assert forall|a: int, b: int|
        #![trigger rep2[a], rep2[b]]
        0 <= a < rep2.len() && 0 <= b < rep2.len() implies (rep2[a] == rep2[b] <==> connected(g2, a, b)) by {
        if rep2[a] == rep2[b] {
            let ina = rep[a] == rb;
            let inb = rep[b] == rb;
            if ina == inb {
                assert(rep[a] == rep[b]);
                assert(connected(g, a, b));
                lemma_connected_mono(g, g2, a, b);
            } else if ina {
                // a ~ b0 — a0 ~ b
                assert(rep[a] == rep[b0]);
                assert(connected(g, a, b0));
                lemma_connected_mono(g, g2, a, b0);
                assert(rep[b] == ra);
                assert(rep[a0] == rep[b]);
                assert(connected(g, a0, b));
                lemma_connected_mono(g, g2, a0, b);
                assert(g2(b0, a0)) by {
                    assert(edge_upto(edges, k + 1, b0, a0));
                }
                lemma_connected_step(g2, a, b0, a0);
                lemma_connected_trans(g2, a, a0, b);
            } else {
                assert(rep[b] == rep[b0]);
                assert(connected(g, b, b0));
                lemma_connected_mono(g, g2, b, b0);
                assert(rep[a] == ra);
                assert(rep[a0] == rep[a]);
                assert(connected(g, a0, a));
                lemma_connected_mono(g, g2, a0, a);
                assert(g2(b0, a0)) by {
                    assert(edge_upto(edges, k + 1, b0, a0));
                }
                lemma_connected_step(g2, b, b0, a0);
                lemma_connected_trans(g2, b, a0, a);
                lemma_connected_sym(g2, b, a);
            }
        }
        if connected(g2, a, b) {
            let s = |z: int| 0 <= z < n && rep2[z] == rep2[a];
            assert forall|u: int, v: int| s(u) && #[trigger] g2(u, v) implies s(v) by {
                let e = choose|e: int|
                    0 <= e < k + 1 && ((#[trigger] edges[e].0 as int == u && edges[e].1 as int == v) || (
                    edges[e].0 as int == v && edges[e].1 as int == u));
                assert((edges[e].0 as int) < n && (edges[e].1 as int) < n);
                if e < k {
                    assert(g(u, v)) by {
                        assert(edge_upto(edges, k, u, v));
                    }
                    lemma_connected_refl(g, u);
                    lemma_connected_step(g, u, u, v);
                    assert(rep[u] == rep[v]);
                } else {
                    assert(rep2[a0] == ra);
                    assert(rep2[b0] == ra);
                }
            }
            lemma_connected_refl(g2, a);
            lemma_closed_reach(g2, s, a, b);
        }
    }
}

/// Label the connected components of the graph of `edges` on `0..n`:
/// members of one component share a label, labels count up from 0 in
/// order of each component's first member, and non-members are -1.
pub fn label_components(n: usize, edges: &[(u32, u32)], member: &[bool]) -> (comp: Vec<i32>)
    requires
        n <= i32::MAX,
        member@.len() == n,
        forall|e: int| 0 <= e < edges@.len() ==> (#[trigger] edges@[e].0 as int) < n && (edges@[e].1 as int) < n,
    ensures
        comp@.len() == n,
        forall|u: int| 0 <= u < n && !member@[u] ==> #[trigger] comp@[u] == -1,
        forall|u: int, v: int|
            #![trigger comp@[u], comp@[v]]
            0 <= u < n && 0 <= v < n && member@[u] && member@[v] ==> (comp@[u] == comp@[v] <==> connected(
                edge_graph(edges@, edges@.len() as int),
                u,
                v,
            )),
        forall|s: int| 0 <= s < n && first_member(edges@, member@, s) ==> #[trigger] comp@[s] == count_first(edges@, member@, s),
{
    let ghost es = edges@;
    let mut dsu = Dsu::new(n);
    let mut k: usize = 0;
    proof {
        assert forall|a: int, b: int|
            #![trigger dsu@[a], dsu@[b]]
            0 <= a < dsu@.len() && 0 <= b < dsu@.len() implies (dsu@[a] == dsu@[b] <==> connected(edge_graph(es, 0), a, b)) by {
            if a == b {
                lemma_connected_refl(edge_graph(es, 0), a);
            }
            if connected(edge_graph(es, 0), a, b) {
                let s = |z: int| z == a;
                assert forall|u: int, v: int| s(u) && #[trigger] edge_graph(es, 0)(u, v) implies s(v) by {}
                lemma_closed_reach(edge_graph(es, 0), s, a, b);
            }
        }
    }
    while k < edges.len()
        invariant
            es == edges@,
            k <= es.len(),
            dsu.wf(),
            dsu@.len() == n,
            forall|e: int| 0 <= e < es.len() ==> (#[trigger] es[e].0 as int) < n && (es[e].1 as int) < n,
            classes_match(es, k as int, dsu@),
        decreases es.len() - k,
    {
        let (a, b) = edges[k];
        proof {
            lemma_union_step(es, k as int, dsu@);
        }
        dsu.union(a, b);
        k = k + 1;
    }
    let ghost rep = dsu@;
    proof {
        dsu.lemma_reps();
    }
    let mut id: Vec<i32> = Vec::new();
    let mut i: usize = 0;
    while i < n
        invariant
            i <= n,
            id@.len() == i,
            forall|r: int| 0 <= r < i ==> #[trigger] id@[r] == -1,
        decreases n - i,
    {
        id.push(-1);
        i = i + 1;
    }
    let mut comp: Vec<i32> = Vec::new();
    let mut next: i32 = 0;
    let mut s: usize = 0;
    while s < n
        invariant
            n <= i32::MAX,
            es == edges@,
            member@.len() == n,
            dsu.wf(),
            dsu@ == rep,
            rep.len() == n,
            forall|x: int| 0 <= x < n ==> (#[trigger] rep[x] as int) < n && rep[rep[x] as int] == rep[x],
            classes_match(es, es.len() as int, rep),
            s <= n,
            id@.len() == n,
            comp@.len() == s,
            next == count_first(es, member@, s as int),
            forall|r: int| 0 <= r < n ==> (#[trigger] id@[r] != -1 <==> exists|x: int| 0 <= x < s && member@[x] && #[trigger] rep[x] as int == r),
            forall|r: int| 0 <= r < n && #[trigger] id@[r] != -1 ==> 0 <= id@[r] < next,
            forall|r1: int, r2: int|
                0 <= r1 < n && 0 <= r2 < n && r1 != r2 && #[trigger] id@[r1] != -1 && #[trigger] id@[r2] != -1 ==> id@[r1] != id@[r2],
            forall|x: int| 0 <= x < s && member@[x] ==> #[trigger] comp@[x] == id@[rep[x] as int] && 0 <= comp@[x] < next,
            forall|x: int| 0 <= x < s && !member@[x] ==> #[trigger] comp@[x] == -1,
            forall|x: int| 0 <= x < s && first_member(es, member@, x) ==> #[trigger] comp@[x] == count_first(es, member@, x),
        decreases n - s,
    {
        proof {
            lemma_count_first_bound(es, member@, s as int);
        }
        if member[s] {
            let r = dsu.find(s as u32);
            let ghost id0 = id@;
            let ghost labels0 = comp@;
            if id[r as usize] == -1 {
                proof {
                    // No earlier member shares the class: `s` is a first member.
                    assert forall|x: int| 0 <= x < s && #[trigger] member@[x] implies !connected(
                        edge_graph(es, es.len() as int),
                        x,
                        s as int,
                    ) by {
                        if connected(edge_graph(es, es.len() as int), x, s as int) {
                            assert(rep[x] == rep[s as int]);
                        }
                    }
                    assert(first_member(es, member@, s as int));
                }
                id.set(r as usize, next);
                comp.push(next);
                next = next + 1;
            } else {
                proof {
                    let x = choose|x: int| 0 <= x < s && member@[x] && #[trigger] rep[x] as int == r as int;
                    assert(rep[x] == rep[s as int]);
                    assert(connected(edge_graph(es, es.len() as int), x, s as int));
                    assert(!first_member(es, member@, s as int));
                }
                let v = id[r as usize];
                comp.push(v);
            }
            proof {
                assert forall|q: int| 0 <= q < n implies (#[trigger] id@[q] != -1 <==> exists|x: int| 0 <= x < s + 1 && member@[x] && #[trigger] rep[x] as int == q) by {
                    if id0[q] != -1 {
                        let x = choose|x: int| 0 <= x < s && member@[x] && #[trigger] rep[x] as int == q;
                        assert(0 <= x < s + 1 && member@[x] && rep[x] as int == q);
                    }
                    if q == r as int {
                        assert(rep[s as int] as int == q);
                    }
                }
                assert forall|x: int| 0 <= x < s + 1 && member@[x] implies #[trigger] comp@[x] == id@[rep[x] as int] && 0 <= comp@[x] < next by {
                    if x < s {
                        assert(comp@[x] == labels0[x]);
                        if rep[x] == r {
                            assert(id0[r as int] != -1);
                        }
                    }
                }
                assert forall|x: int| 0 <= x < s + 1 && !member@[x] implies #[trigger] comp@[x] == -1 by {
                    if x < s {
                        assert(comp@[x] == labels0[x]);
                    }
                }
                assert forall|x: int| 0 <= x < s + 1 && first_member(es, member@, x) implies #[trigger] comp@[x] == count_first(es, member@, x) by {
                    if x < s {
                        assert(comp@[x] == labels0[x]);
                    }
                }
            }
        } else {
            let ghost labels0 = comp@;
            comp.push(-1);
            proof {
                assert(!first_member(es, member@, s as int));
                assert forall|q: int| 0 <= q < n implies (#[trigger] id@[q] != -1 <==> exists|x: int| 0 <= x < s + 1 && member@[x] && #[trigger] rep[x] as int == q) by {
                    if id@[q] != -1 {
                        let x = choose|x: int| 0 <= x < s && member@[x] && #[trigger] rep[x] as int == q;
                        assert(0 <= x < s + 1 && member@[x] && rep[x] as int == q);
                    }
                }
                assert forall|x: int| 0 <= x < s + 1 && member@[x] implies #[trigger] comp@[x] == id@[rep[x] as int] && 0 <= comp@[x] < next by {
                    assert(comp@[x] == labels0[x]);
                }
                assert forall|x: int| 0 <= x < s + 1 && first_member(es, member@, x) implies #[trigger] comp@[x] == count_first(es, member@, x) by {
                    assert(comp@[x] == labels0[x]);
                }
            }
        }
        s = s + 1;
    }
    proof {
        assert forall|u: int, v: int|
            #![trigger comp@[u], comp@[v]]
            0 <= u < n && 0 <= v < n && member@[u] && member@[v] implies (comp@[u] == comp@[v] <==> connected(
                edge_graph(es, es.len() as int),
                u,
                v,
            )) by {
            assert(comp@[u] == id@[rep[u] as int]);
            assert(comp@[v] == id@[rep[v] as int]);
            assert(id@[rep[u] as int] != -1);
            assert(id@[rep[v] as int] != -1);
        }
    }
    comp
}

} // verus!
