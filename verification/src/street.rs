//! The simplified street graph: nodes of degree 2 dissolved, so that the
//! nodes are junctions and dead ends and the edges are whole streets
//! between them. Street statistics are computed on this graph; the
//! geometry of each street follows from the nodes it passes through.

use vstd::prelude::*;

use crate::bench::{Class, Edge};

verus! {

/// Edges join two distinct nodes; each node lists, once each, exactly the
/// edges that touch it.
pub open spec fn graph_ok(edges: Seq<Edge>, inc: Seq<Vec<usize>>) -> bool {
    &&& forall|e: int|
        0 <= e < edges.len() ==> (#[trigger] edges[e]).a < inc.len() && edges[e].b < inc.len() && edges[e].a
            != edges[e].b
    &&& forall|v: int, j: int|
        0 <= v < inc.len() && 0 <= j < inc[v]@.len() ==> {
            let e = #[trigger] inc[v]@[j] as int;
            &&& 0 <= e < edges.len()
            &&& (edges[e].a as int == v || edges[e].b as int == v)
        }
    &&& forall|v: int, i: int, j: int|
        0 <= v < inc.len() && 0 <= i < j < inc[v]@.len() ==> inc[v]@[i] != inc[v]@[j]
    &&& forall|e: int| 0 <= e < edges.len() ==> lists(inc, (#[trigger] edges[e]).a as int, e) && lists(inc, edges[e].b as int, e)
}

/// Node `v` lists edge `e`.
pub open spec fn lists(inc: Seq<Vec<usize>>, v: int, e: int) -> bool {
    exists|j: int| 0 <= j < inc[v]@.len() && #[trigger] inc[v]@[j] as int == e
}

/// A junction or a dead end: any node whose degree is not 2.
pub open spec fn is_junction(inc: Seq<Vec<usize>>, v: int) -> bool {
    inc[v]@.len() != 2
}

/// The end of edge `e` away from `v`.
pub open spec fn far_end(edges: Seq<Edge>, e: int, v: int) -> int {
    if edges[e].a as int == v {
        edges[e].b as int
    } else {
        edges[e].a as int
    }
}

/// The first edge of `v` other than `e`.
pub open spec fn onward(inc: Seq<Vec<usize>>, v: int, e: int) -> int {
    if inc[v]@[0] as int != e {
        inc[v]@[0] as int
    } else {
        inc[v]@[1] as int
    }
}

/// The `i`-th node of the walk that leaves `s` along `e0` and carries on
/// through each node by its other edge.
pub open spec fn walk_node(edges: Seq<Edge>, inc: Seq<Vec<usize>>, s: int, e0: int, i: nat) -> int
    decreases i, 0nat,
{
    if i == 0 {
        s
    } else {
        far_end(edges, walk_edge(edges, inc, s, e0, (i - 1) as nat), walk_node(edges, inc, s, e0, (i - 1) as nat))
    }
}

/// The `i`-th edge of that walk.
pub open spec fn walk_edge(edges: Seq<Edge>, inc: Seq<Vec<usize>>, s: int, e0: int, i: nat) -> int
    decreases i, 1nat,
{
    if i == 0 {
        e0
    } else {
        onward(inc, walk_node(edges, inc, s, e0, i), walk_edge(edges, inc, s, e0, (i - 1) as nat))
    }
}

/// The walk meets its first junction after `l` edges.
pub open spec fn walk_ends_at(edges: Seq<Edge>, inc: Seq<Vec<usize>>, s: int, e0: int, l: nat) -> bool {
    &&& l >= 1
    &&& is_junction(inc, walk_node(edges, inc, s, e0, l))
    &&& forall|i: nat| 1 <= i < l ==> !is_junction(inc, #[trigger] walk_node(edges, inc, s, e0, i))
}

/// The nodes of the street that leaves junction `s` along `e0`.
pub open spec fn street_nodes(edges: Seq<Edge>, inc: Seq<Vec<usize>>, s: int, e0: int, l: nat) -> Seq<usize> {
    Seq::new(l + 1, |i: int| walk_node(edges, inc, s, e0, i as nat) as usize)
}

/// The street leaving junction `t` by its `q`-th edge ends at `s`, arriving
/// by edge `e`.
pub open spec fn street_arrives(edges: Seq<Edge>, inc: Seq<Vec<usize>>, t: int, q: int, s: int, e: int) -> bool {
    exists|l: nat|
        #[trigger] walk_ends_at(edges, inc, t, inc[t]@[q] as int, l) && walk_node(edges, inc, t, inc[t]@[q] as int, l)
            == s && walk_edge(edges, inc, t, inc[t]@[q] as int, (l - 1) as nat) == e
}

/// `(t, q)` comes before `(s, p)`: by node, then by position in the
/// node's edge list.
pub open spec fn end_before(t: int, q: int, s: int, p: int) -> bool {
    t < s || (t == s && q < p)
}

/// The street leaving junction `s` by its `p`-th edge is listed from this
/// end: its other end does not come first.
pub open spec fn listed_from(edges: Seq<Edge>, inc: Seq<Vec<usize>>, s: int, p: int) -> bool {
    &&& is_junction(inc, s)
    &&& !exists|t: int, q: int|
        #![trigger end_before(t, q, s, p), street_arrives(edges, inc, t, q, s, inc[s]@[p] as int)]
        0 <= t < inc.len() && 0 <= q < inc[t]@.len() && is_junction(inc, t) && end_before(t, q, s, p)
            && street_arrives(edges, inc, t, q, s, inc[s]@[p] as int)
}

/// Facts of one step of a walk through a node of degree 2.
proof fn lemma_step(edges: Seq<Edge>, inc: Seq<Vec<usize>>, s: int, e0: int, i: nat)
    requires
        graph_ok(edges, inc),
        0 <= s < inc.len(),
        lists(inc, s, e0),
        forall|j: nat| 1 <= j <= i ==> !is_junction(inc, #[trigger] walk_node(edges, inc, s, e0, j)),
    ensures
        0 <= walk_node(edges, inc, s, e0, i) < inc.len(),
        0 <= walk_edge(edges, inc, s, e0, i) < edges.len(),
        lists(inc, walk_node(edges, inc, s, e0, i), walk_edge(edges, inc, s, e0, i)),
        i >= 1 ==> lists(inc, walk_node(edges, inc, s, e0, i), walk_edge(edges, inc, s, e0, (i - 1) as nat)),
        i >= 1 ==> walk_edge(edges, inc, s, e0, i) != walk_edge(edges, inc, s, e0, (i - 1) as nat),
        0 <= walk_node(edges, inc, s, e0, i + 1) < inc.len(),
        walk_node(edges, inc, s, e0, i + 1) != walk_node(edges, inc, s, e0, i),
        lists(inc, walk_node(edges, inc, s, e0, i + 1), walk_edge(edges, inc, s, e0, i)),
    decreases i,
{
    let v = walk_node(edges, inc, s, e0, i);
    let e = walk_edge(edges, inc, s, e0, i);
    if i == 0 {
        let j = choose|j: int| 0 <= j < inc[s]@.len() && #[trigger] inc[s]@[j] as int == e0;
        assert(inc[s]@[j] as int == e0);
    } else {
        lemma_step(edges, inc, s, e0, (i - 1) as nat);
        let ep = walk_edge(edges, inc, s, e0, (i - 1) as nat);
        assert(!is_junction(inc, v));
        assert(inc[v]@.len() == 2);
        let j = choose|j: int| 0 <= j < inc[v]@.len() && #[trigger] inc[v]@[j] as int == ep;
        assert(inc[v]@[0] != inc[v]@[1]);
        assert(inc[v]@[0] as int >= 0 && inc[v]@[1] as int >= 0);
        if inc[v]@[0] as int != ep {
            assert(e == inc[v]@[0] as int);
            assert(lists(inc, v, e));
        } else {
            assert(e == inc[v]@[1] as int);
            assert(lists(inc, v, e));
        }
    }
    let k = choose|k: int| 0 <= k < inc[v]@.len() && #[trigger] inc[v]@[k] as int == e;
    assert(inc[v]@[k] as int == e);
    let edge = edges[e];
    assert(lists(inc, edge.a as int, e) && lists(inc, edge.b as int, e));
}

/// Node `x` is an end of edge `e`.
pub open spec fn touches(edges: Seq<Edge>, e: int, x: int) -> bool {
    edges[e].a as int == x || edges[e].b as int == x
}

/// Along a walk whose first `k` nodes after the start are of degree 2,
/// the edges are distinct, the nodes after the start are distinct, each
/// edge joins consecutive nodes, and each of those nodes lists exactly its
/// two walk edges.
proof fn lemma_fresh(edges: Seq<Edge>, inc: Seq<Vec<usize>>, s: int, e0: int, k: nat)
    requires
        graph_ok(edges, inc),
        0 <= s < inc.len(),
        is_junction(inc, s),
        lists(inc, s, e0),
        forall|j: nat| 1 <= j <= k ==> !is_junction(inc, #[trigger] walk_node(edges, inc, s, e0, j)),
    ensures
        forall|i: nat, j: nat| i < j <= k ==> walk_edge(edges, inc, s, e0, i) != walk_edge(edges, inc, s, e0, j),
        forall|i: nat, j: nat| i < j <= k ==> walk_node(edges, inc, s, e0, i) != walk_node(edges, inc, s, e0, j),
        forall|i: nat, x: int|
            i <= k ==> (touches(edges, walk_edge(edges, inc, s, e0, i), x) <==> (x == walk_node(edges, inc, s, e0, i) || x
                == walk_node(edges, inc, s, e0, i + 1))),
        forall|i: nat, x: int|
            1 <= i <= k ==> (lists(inc, walk_node(edges, inc, s, e0, i), x) <==> (x == walk_edge(
                edges,
                inc,
                s,
                e0,
                (i - 1) as nat,
            ) || x == walk_edge(edges, inc, s, e0, i))),
    decreases k,
{
    lemma_step(edges, inc, s, e0, k);
    // Edge k of the walk joins its nodes k and k + 1.
    assert forall|x: int| #[trigger] touches(edges, walk_edge(edges, inc, s, e0, k), x) <==> (x == walk_node(edges, inc, s, e0, k) || x == walk_node(edges, inc, s, e0, k + 1)) by {
        let j = choose|j: int| 0 <= j < inc[walk_node(edges, inc, s, e0, k)]@.len() && #[trigger] inc[walk_node(edges, inc, s, e0, k)]@[j] as int == walk_edge(edges, inc, s, e0, k);
        assert(touches(edges, walk_edge(edges, inc, s, e0, k), walk_node(edges, inc, s, e0, k)));
    }
    if k >= 1 {
        assert forall|x: int| #[trigger] lists(inc, walk_node(edges, inc, s, e0, k), x) <==> (x == walk_edge(edges, inc, s, e0, (k - 1) as nat) || x == walk_edge(edges, inc, s, e0, k)) by {
            assert(inc[walk_node(edges, inc, s, e0, k)]@.len() == 2);
            assert(inc[walk_node(edges, inc, s, e0, k)]@[0] != inc[walk_node(edges, inc, s, e0, k)]@[1]);
            if lists(inc, walk_node(edges, inc, s, e0, k), x) {
                let j = choose|j: int| 0 <= j < inc[walk_node(edges, inc, s, e0, k)]@.len() && #[trigger] inc[walk_node(edges, inc, s, e0, k)]@[j] as int == x;
                let a = choose|a: int| 0 <= a < inc[walk_node(edges, inc, s, e0, k)]@.len() && #[trigger] inc[walk_node(edges, inc, s, e0, k)]@[a] as int == walk_edge(edges, inc, s, e0, (k - 1) as nat);
                let b = choose|b: int| 0 <= b < inc[walk_node(edges, inc, s, e0, k)]@.len() && #[trigger] inc[walk_node(edges, inc, s, e0, k)]@[b] as int == walk_edge(edges, inc, s, e0, k);
            }
        }
    }
    if k == 0 {
    } else {
        lemma_fresh(edges, inc, s, e0, (k - 1) as nat);
        let km = (k - 1) as nat;
        lemma_step(edges, inc, s, e0, km);
        // Node k is new.
        assert forall|i: nat| i < k implies walk_node(edges, inc, s, e0, i) != walk_node(edges, inc, s, e0, k) by {
            if i == 0 {
                assert(is_junction(inc, walk_node(edges, inc, s, e0, 0)));
            } else if walk_node(edges, inc, s, e0, i) == walk_node(edges, inc, s, e0, k) {
                // Edge k - 1 touches node k = node i, whose edges are edges i - 1 and i.
                assert(lists(inc, walk_node(edges, inc, s, e0, k), walk_edge(edges, inc, s, e0, km)));
                assert(lists(inc, walk_node(edges, inc, s, e0, i), walk_edge(edges, inc, s, e0, km)));
                if walk_edge(edges, inc, s, e0, km) == walk_edge(edges, inc, s, e0, i) {
                    assert(i == km);
                    assert(walk_node(edges, inc, s, e0, k) != walk_node(edges, inc, s, e0, km));
                } else {
                    assert(walk_edge(edges, inc, s, e0, km) == walk_edge(edges, inc, s, e0, (i - 1) as nat));
                }
            }
        }
        // Edge k is new.
        assert forall|i: nat| i < k implies walk_edge(edges, inc, s, e0, i) != walk_edge(edges, inc, s, e0, k) by {
            if i == km {
            } else if walk_edge(edges, inc, s, e0, i) == walk_edge(edges, inc, s, e0, k) {
                assert(touches(edges, walk_edge(edges, inc, s, e0, k), walk_node(edges, inc, s, e0, k)));
                assert(touches(edges, walk_edge(edges, inc, s, e0, i), walk_node(edges, inc, s, e0, k)));
                assert(walk_node(edges, inc, s, e0, k) == walk_node(edges, inc, s, e0, i) || walk_node(edges, inc, s, e0, k) == walk_node(edges, inc, s, e0, i + 1));
            }
        }
    }
}

/// Distinct integers below `n` number at most `n`.
proof fn lemma_distinct_below(t: Seq<int>, n: int)
    requires
        0 <= n,
        forall|i: int| 0 <= i < t.len() ==> 0 <= #[trigger] t[i] < n,
        t.no_duplicates(),
    ensures
        t.len() <= n,
{
    t.unique_seq_to_set();
    vstd::set_lib::lemma_int_range(0, n);
    let r = vstd::set_lib::set_int_range(0, n);
    assert(t.to_set().subset_of(r));
    vstd::set_lib::lemma_len_subset(t.to_set(), r);
}

/// A walk from a junction meets a junction within as many edges as the
/// graph has.
proof fn lemma_walk_end(edges: Seq<Edge>, inc: Seq<Vec<usize>>, s: int, e0: int, k: nat) -> (l: nat)
    requires
        graph_ok(edges, inc),
        0 <= s < inc.len(),
        is_junction(inc, s),
        lists(inc, s, e0),
        1 <= k <= edges.len(),
        forall|j: nat| 1 <= j < k ==> !is_junction(inc, #[trigger] walk_node(edges, inc, s, e0, j)),
    ensures
        k <= l <= edges.len(),
        walk_ends_at(edges, inc, s, e0, l),
    decreases edges.len() - k,
{
    if is_junction(inc, walk_node(edges, inc, s, e0, k)) {
        k
    } else {
        lemma_fresh(edges, inc, s, e0, k);
        if k == edges.len() {
            let t = Seq::new(k + 1, |i: int| walk_edge(edges, inc, s, e0, i as nat));
            assert forall|i: int| 0 <= i < t.len() implies 0 <= #[trigger] t[i] < edges.len() by {
                lemma_fresh(edges, inc, s, e0, i as nat);
                lemma_step(edges, inc, s, e0, i as nat);
            }
            assert(t.no_duplicates()) by {
                assert forall|i: int, j: int| 0 <= i < t.len() && 0 <= j < t.len() && i != j implies t[i] != t[j] by {
                    if i < j {
                        assert(walk_edge(edges, inc, s, e0, i as nat) != walk_edge(edges, inc, s, e0, j as nat));
                    } else {
                        assert(walk_edge(edges, inc, s, e0, j as nat) != walk_edge(edges, inc, s, e0, i as nat));
                    }
                }
            }
            lemma_distinct_below(t, edges.len() as int);
        }
        lemma_walk_end(edges, inc, s, e0, k + 1)
    }
}

/// A walk meets its first junction only once.
proof fn lemma_end_unique(edges: Seq<Edge>, inc: Seq<Vec<usize>>, s: int, e0: int, l1: nat, l2: nat)
    requires
        walk_ends_at(edges, inc, s, e0, l1),
        walk_ends_at(edges, inc, s, e0, l2),
    ensures
        l1 == l2,
{
    if l1 < l2 {
        assert(!is_junction(inc, walk_node(edges, inc, s, e0, l1)));
    } else if l2 < l1 {
        assert(!is_junction(inc, walk_node(edges, inc, s, e0, l2)));
    }
}

/// Walked from its far end, a street retraces its nodes and edges in
/// reverse and arrives back at its start.
proof fn lemma_reverse(edges: Seq<Edge>, inc: Seq<Vec<usize>>, s: int, e0: int, l: nat)
    requires
        graph_ok(edges, inc),
        0 <= s < inc.len(),
        is_junction(inc, s),
        lists(inc, s, e0),
        walk_ends_at(edges, inc, s, e0, l),
    ensures
        ({
            let t = walk_node(edges, inc, s, e0, l);
            let f = walk_edge(edges, inc, s, e0, (l - 1) as nat);
            &&& 0 <= t < inc.len()
            &&& lists(inc, t, f)
            &&& walk_ends_at(edges, inc, t, f, l)
            &&& walk_node(edges, inc, t, f, l) == s
            &&& walk_edge(edges, inc, t, f, (l - 1) as nat) == e0
            &&& forall|i: nat| i < l ==> #[trigger] walk_edge(edges, inc, t, f, i) == walk_edge(edges, inc, s, e0, (l - 1 - i) as nat)
        }),
{
    let t = walk_node(edges, inc, s, e0, l);
    let f = walk_edge(edges, inc, s, e0, (l - 1) as nat);
    let lm = (l - 1) as nat;
    lemma_fresh(edges, inc, s, e0, lm);
    lemma_step(edges, inc, s, e0, lm);
    assert(touches(edges, f, t));
    assert(lists(inc, t, f)) by {
        assert(lists(inc, edges[f].a as int, f) && lists(inc, edges[f].b as int, f));
    }
    lemma_reverse_prefix(edges, inc, s, e0, l, l);
    assert forall|i: nat| 1 <= i < l implies !is_junction(inc, #[trigger] walk_node(edges, inc, t, f, i)) by {
        lemma_reverse_prefix(edges, inc, s, e0, l, i);
        assert(!is_junction(inc, walk_node(edges, inc, s, e0, (l - i) as nat)));
    }
    assert forall|i: nat| i < l implies #[trigger] walk_edge(edges, inc, t, f, i) == walk_edge(edges, inc, s, e0, (l - 1 - i) as nat) by {
        lemma_reverse_prefix(edges, inc, s, e0, l, i);
    }
}

proof fn lemma_reverse_prefix(edges: Seq<Edge>, inc: Seq<Vec<usize>>, s: int, e0: int, l: nat, i: nat)
    requires
        graph_ok(edges, inc),
        0 <= s < inc.len(),
        is_junction(inc, s),
        lists(inc, s, e0),
        walk_ends_at(edges, inc, s, e0, l),
        i <= l,
    ensures
        ({
            let t = walk_node(edges, inc, s, e0, l);
            let f = walk_edge(edges, inc, s, e0, (l - 1) as nat);
            &&& walk_node(edges, inc, t, f, i) == walk_node(edges, inc, s, e0, (l - i) as nat)
            &&& i < l ==> walk_edge(edges, inc, t, f, i) == walk_edge(edges, inc, s, e0, (l - 1 - i) as nat)
        }),
    decreases i,
{
    let t = walk_node(edges, inc, s, e0, l);
    let f = walk_edge(edges, inc, s, e0, (l - 1) as nat);
    let lm = (l - 1) as nat;
    lemma_fresh(edges, inc, s, e0, lm);
    if i > 0 {
        let im = (i - 1) as nat;
        lemma_reverse_prefix(edges, inc, s, e0, l, im);
        // Edge j = l - i joins nodes j and j + 1 of the walk; leaving node
        // j + 1 by it reaches node j.
        let j = (l - i) as nat;
        lemma_step(edges, inc, s, e0, j);
        let ej = walk_edge(edges, inc, s, e0, j);
        assert(touches(edges, ej, edges[ej].a as int) && touches(edges, ej, edges[ej].b as int));
        assert(walk_node(edges, inc, t, f, i) == walk_node(edges, inc, s, e0, j));
        if i < l {
            // Node j is of degree 2 with edges j - 1 and j: its other edge is j - 1.
            assert(1 <= j <= lm);
            let vj = walk_node(edges, inc, s, e0, j);
            assert(lists(inc, vj, inc[vj]@[0] as int));
            assert(lists(inc, vj, inc[vj]@[1] as int));
            assert(inc[vj]@[0] != inc[vj]@[1]);
        }
    }
}

/// A street from a junction touches a junction only at its two ends.
proof fn lemma_junction_end(edges: Seq<Edge>, inc: Seq<Vec<usize>>, t: int, e1: int, l: nat, i: nat, x: int)
    requires
        graph_ok(edges, inc),
        0 <= t < inc.len(),
        is_junction(inc, t),
        lists(inc, t, e1),
        walk_ends_at(edges, inc, t, e1, l),
        i < l,
        touches(edges, walk_edge(edges, inc, t, e1, i), x),
        is_junction(inc, x),
    ensures
        (i == 0 && x == t) || (i == l - 1 && x == walk_node(edges, inc, t, e1, l)),
{
    lemma_fresh(edges, inc, t, e1, (l - 1) as nat);
    lemma_fresh(edges, inc, t, e1, (l - 1) as nat);
    if i + 1 < l {
        lemma_step(edges, inc, t, e1, i);
    }
    lemma_step(edges, inc, t, e1, (l - 1) as nat);
    assert(touches(edges, walk_edge(edges, inc, t, e1, i), x) <==> (x == walk_node(edges, inc, t, e1, i) || x
        == walk_node(edges, inc, t, e1, i + 1))) by {
        if i == l - 1 {
            let ei = walk_edge(edges, inc, t, e1, i);
            assert(touches(edges, ei, edges[ei].a as int));
        }
    }
    if x == walk_node(edges, inc, t, e1, i) && i >= 1 {
        assert(!is_junction(inc, walk_node(edges, inc, t, e1, i)));
    }
    if x == walk_node(edges, inc, t, e1, i + 1) && i + 1 < l {
        assert(!is_junction(inc, walk_node(edges, inc, t, e1, i + 1)));
    }
}

/// A street holding one edge of a node of degree 2 holds the node's other
/// edge too.
proof fn lemma_interior(edges: Seq<Edge>, inc: Seq<Vec<usize>>, t: int, e1: int, l: nat, i: nat, v: int, y: int)
    requires
        graph_ok(edges, inc),
        0 <= t < inc.len(),
        is_junction(inc, t),
        lists(inc, t, e1),
        walk_ends_at(edges, inc, t, e1, l),
        i < l,
        touches(edges, walk_edge(edges, inc, t, e1, i), v),
        !is_junction(inc, v),
        lists(inc, v, y),
    ensures
        exists|j: nat| j < l && #[trigger] walk_edge(edges, inc, t, e1, j) == y,
{
    lemma_fresh(edges, inc, t, e1, (l - 1) as nat);
    lemma_step(edges, inc, t, e1, (l - 1) as nat);
    let ei = walk_edge(edges, inc, t, e1, i);
    if i == l - 1 {
        assert(touches(edges, ei, edges[ei].a as int));
        assert(touches(edges, ei, v) <==> (v == walk_node(edges, inc, t, e1, i) || v == walk_node(edges, inc, t, e1, i + 1)));
    }
    if v == walk_node(edges, inc, t, e1, i) {
        assert(i >= 1);
        assert(y == walk_edge(edges, inc, t, e1, (i - 1) as nat) || y == walk_edge(edges, inc, t, e1, i));
    } else {
        assert(v == walk_node(edges, inc, t, e1, i + 1));
        assert(i + 1 < l);
        assert(y == walk_edge(edges, inc, t, e1, i) || y == walk_edge(edges, inc, t, e1, i + 1));
    }
}

/// Edge `e` lies on the street leaving junction `t` by its `q`-th edge.
pub open spec fn on_street(edges: Seq<Edge>, inc: Seq<Vec<usize>>, t: int, q: int, e: int) -> bool {
    exists|l: nat, j: nat|
        #[trigger] walk_ends_at(edges, inc, t, inc[t]@[q] as int, l) && j < l && #[trigger] walk_edge(
            edges,
            inc,
            t,
            inc[t]@[q] as int,
            j,
        ) == e
}

/// Edge `e` lies on a street leaving some junction by an edge that comes
/// before the `p`-th edge of node `s`.
pub open spec fn covered(edges: Seq<Edge>, inc: Seq<Vec<usize>>, s: int, p: int, e: int) -> bool {
    exists|t: int, q: int|
        #![trigger end_before(t, q, s, p), on_street(edges, inc, t, q, e)]
        0 <= t < inc.len() && 0 <= q < inc[t]@.len() && is_junction(inc, t) && end_before(t, q, s, p) && on_street(
            edges,
            inc,
            t,
            q,
            e,
        )
}

/// The edge by which node `v` leaves by its `q`-th edge is listed by it.
proof fn lemma_lists_own(inc: Seq<Vec<usize>>, v: int, q: int)
    requires
        0 <= q < inc[v]@.len(),
    ensures
        lists(inc, v, inc[v]@[q] as int),
{
    assert(inc[v]@[q] as int == inc[v]@[q] as int);
}

/// At a junction, a street edge is taken exactly when the street has been
/// listed from its other end already.
proof fn lemma_taken_iff_unlisted(edges: Seq<Edge>, inc: Seq<Vec<usize>>, s: int, p: int)
    requires
        graph_ok(edges, inc),
        0 <= s < inc.len(),
        is_junction(inc, s),
        0 <= p < inc[s]@.len(),
    ensures
        covered(edges, inc, s, p, inc[s]@[p] as int) <==> !listed_from(edges, inc, s, p),
{
    let e0 = inc[s]@[p] as int;
    lemma_lists_own(inc, s, p);
    if covered(edges, inc, s, p, e0) {
        let (t, q) = choose|t: int, q: int|
            #![trigger end_before(t, q, s, p), on_street(edges, inc, t, q, e0)]
            0 <= t < inc.len() && 0 <= q < inc[t]@.len() && is_junction(inc, t) && end_before(t, q, s, p) && on_street(
                edges,
                inc,
                t,
                q,
                e0,
            );
        let e1 = inc[t]@[q] as int;
        lemma_lists_own(inc, t, q);
        let (l, j) = choose|l: nat, j: nat|
            #[trigger] walk_ends_at(edges, inc, t, e1, l) && j < l && #[trigger] walk_edge(edges, inc, t, e1, j) == e0;
        assert(touches(edges, e0, s)) by {
            let k = choose|k: int| 0 <= k < inc[s]@.len() && #[trigger] inc[s]@[k] as int == e0;
            assert(inc[s]@[k] as int == e0);
        }
        lemma_junction_end(edges, inc, t, e1, l, j, s);
        if j == 0 && s == t {
            assert(inc[s]@[q] == inc[s]@[p]);
            assert(q == p);
        }
        assert(street_arrives(edges, inc, t, q, s, e0));
    }
    if !listed_from(edges, inc, s, p) {
        let (t, q) = choose|t: int, q: int|
            #![trigger end_before(t, q, s, p), street_arrives(edges, inc, t, q, s, e0)]
            0 <= t < inc.len() && 0 <= q < inc[t]@.len() && is_junction(inc, t) && end_before(t, q, s, p)
                && street_arrives(edges, inc, t, q, s, e0);
        let e1 = inc[t]@[q] as int;
        let l = choose|l: nat|
            #[trigger] walk_ends_at(edges, inc, t, e1, l) && walk_node(edges, inc, t, e1, l) == s && walk_edge(
                edges,
                inc,
                t,
                e1,
                (l - 1) as nat,
            ) == e0;
        assert(on_street(edges, inc, t, q, e0));
    }
}

/// A street not listed from junction `s` lies on a street listed before.
proof fn lemma_unlisted_covered(edges: Seq<Edge>, inc: Seq<Vec<usize>>, s: int, p: int, e: int)
    requires
        graph_ok(edges, inc),
        0 <= s < inc.len(),
        is_junction(inc, s),
        0 <= p < inc[s]@.len(),
        !listed_from(edges, inc, s, p),
        on_street(edges, inc, s, p, e),
    ensures
        covered(edges, inc, s, p, e),
{
    let e0 = inc[s]@[p] as int;
    let (t, q) = choose|t: int, q: int|
        #![trigger end_before(t, q, s, p), street_arrives(edges, inc, t, q, s, e0)]
        0 <= t < inc.len() && 0 <= q < inc[t]@.len() && is_junction(inc, t) && end_before(t, q, s, p)
            && street_arrives(edges, inc, t, q, s, e0);
    let e1 = inc[t]@[q] as int;
    lemma_lists_own(inc, t, q);
    let l = choose|l: nat|
        #[trigger] walk_ends_at(edges, inc, t, e1, l) && walk_node(edges, inc, t, e1, l) == s && walk_edge(
            edges,
            inc,
            t,
            e1,
            (l - 1) as nat,
        ) == e0;
    lemma_reverse(edges, inc, t, e1, l);
    let (l2, j) = choose|l2: nat, j: nat| #[trigger] walk_ends_at(edges, inc, s, e0, l2) && j < l2 && #[trigger] walk_edge(
        edges,
        inc,
        s,
        e0,
        j,
    ) == e;
    lemma_end_unique(edges, inc, s, e0, l, l2);
    assert(walk_edge(edges, inc, s, e0, j) == walk_edge(edges, inc, t, e1, (l - 1 - j) as nat));
    assert(on_street(edges, inc, t, q, e));
}

/// Moving past the `p`-th edge of `s` adds that street to the covered edges.
proof fn lemma_covered_step(edges: Seq<Edge>, inc: Seq<Vec<usize>>, s: int, p: int, e: int)
    requires
        0 <= s < inc.len(),
        is_junction(inc, s),
        0 <= p < inc[s]@.len(),
    ensures
        covered(edges, inc, s, p + 1, e) <==> (covered(edges, inc, s, p, e) || on_street(edges, inc, s, p, e)),
{
    if covered(edges, inc, s, p + 1, e) {
        let (t, q) = choose|t: int, q: int|
            #![trigger end_before(t, q, s, p + 1), on_street(edges, inc, t, q, e)]
            0 <= t < inc.len() && 0 <= q < inc[t]@.len() && is_junction(inc, t) && end_before(t, q, s, p + 1) && on_street(
                edges,
                inc,
                t,
                q,
                e,
            );
        if !(t == s && q == p) {
            assert(end_before(t, q, s, p));
        }
    }
    if covered(edges, inc, s, p, e) {
        let (t, q) = choose|t: int, q: int|
            #![trigger end_before(t, q, s, p), on_street(edges, inc, t, q, e)]
            0 <= t < inc.len() && 0 <= q < inc[t]@.len() && is_junction(inc, t) && end_before(t, q, s, p) && on_street(
                edges,
                inc,
                t,
                q,
                e,
            );
        assert(end_before(t, q, s, p + 1));
    }
    if on_street(edges, inc, s, p, e) {
        assert(end_before(s, p, s, p + 1));
    }
}

/// Past all edges of node `s`, or past a node that is no junction, the
/// covered edges are those covered before the next node.
proof fn lemma_covered_node(edges: Seq<Edge>, inc: Seq<Vec<usize>>, s: int, e: int)
    requires
        0 <= s < inc.len(),
    ensures
        is_junction(inc, s) ==> (covered(edges, inc, s + 1, 0, e) <==> covered(edges, inc, s, inc[s]@.len() as int, e)),
        !is_junction(inc, s) ==> (covered(edges, inc, s + 1, 0, e) <==> covered(edges, inc, s, 0, e)),
{
    let m = inc[s]@.len() as int;
    if covered(edges, inc, s + 1, 0, e) {
        let (t, q) = choose|t: int, q: int|
            #![trigger end_before(t, q, s + 1, 0), on_street(edges, inc, t, q, e)]
            0 <= t < inc.len() && 0 <= q < inc[t]@.len() && is_junction(inc, t) && end_before(t, q, s + 1, 0) && on_street(
                edges,
                inc,
                t,
                q,
                e,
            );
        assert(end_before(t, q, s, m));
        if t < s {
            assert(end_before(t, q, s, 0));
        }
    }
    if covered(edges, inc, s, m, e) {
        let (t, q) = choose|t: int, q: int|
            #![trigger end_before(t, q, s, m), on_street(edges, inc, t, q, e)]
            0 <= t < inc.len() && 0 <= q < inc[t]@.len() && is_junction(inc, t) && end_before(t, q, s, m) && on_street(
                edges,
                inc,
                t,
                q,
                e,
            );
        assert(end_before(t, q, s + 1, 0));
    }
    if covered(edges, inc, s, 0, e) {
        let (t, q) = choose|t: int, q: int|
            #![trigger end_before(t, q, s, 0), on_street(edges, inc, t, q, e)]
            0 <= t < inc.len() && 0 <= q < inc[t]@.len() && is_junction(inc, t) && end_before(t, q, s, 0) && on_street(
                edges,
                inc,
                t,
                q,
                e,
            );
        assert(end_before(t, q, s + 1, 0));
    }
}

/// The junctions among nodes `0..k`, ascending.
pub open spec fn junctions_upto(inc: Seq<Vec<usize>>, k: int) -> Seq<usize>
    decreases k,
{
    if k <= 0 {
        Seq::empty()
    } else if is_junction(inc, k - 1) {
        junctions_upto(inc, k - 1).push((k - 1) as usize)
    } else {
        junctions_upto(inc, k - 1)
    }
}

/// The index of junction `v` among the nodes of the simplified graph.
pub open spec fn rank(inc: Seq<Vec<usize>>, v: int) -> int {
    junctions_upto(inc, v).len() as int
}

/// The street ends listed from the first `q` edges of node `t`, in order.
pub open spec fn listed_in(edges: Seq<Edge>, inc: Seq<Vec<usize>>, t: int, q: int) -> Seq<(int, int)>
    decreases q,
{
    if q <= 0 {
        Seq::empty()
    } else if listed_from(edges, inc, t, q - 1) {
        listed_in(edges, inc, t, q - 1).push((t, q - 1))
    } else {
        listed_in(edges, inc, t, q - 1)
    }
}

/// The street ends listed from nodes `0..s`, in order.
pub open spec fn listed_before(edges: Seq<Edge>, inc: Seq<Vec<usize>>, s: int) -> Seq<(int, int)>
    decreases s,
{
    if s <= 0 {
        Seq::empty()
    } else {
        listed_before(edges, inc, s - 1) + listed_in(edges, inc, s - 1, inc[s - 1]@.len() as int)
    }
}

/// A street of the simplified graph: from simplified node `a` to `b`,
/// through the graph nodes `path`.
pub struct Chain {
    pub a: usize,
    pub b: usize,
    pub path: Vec<usize>,
}

/// `c` is the street that leaves junction `t` by its `q`-th edge.
pub open spec fn chain_from(edges: Seq<Edge>, inc: Seq<Vec<usize>>, c: Chain, t: int, q: int) -> bool {
    exists|l: nat|
        #[trigger] walk_ends_at(edges, inc, t, inc[t]@[q] as int, l) && c.path@ == street_nodes(
            edges,
            inc,
            t,
            inc[t]@[q] as int,
            l,
        ) && c.a == rank(inc, t) && c.b == rank(inc, walk_node(edges, inc, t, inc[t]@[q] as int, l))
}

/// The streets among the first `k` with an end at simplified node `c`,
/// ascending.
pub open spec fn streets_at(chains: Seq<Chain>, c: int, k: int) -> Seq<usize>
    decreases k,
{
    if k <= 0 {
        Seq::empty()
    } else if chains[k - 1].a as int == c || chains[k - 1].b as int == c {
        streets_at(chains, c, k - 1).push((k - 1) as usize)
    } else {
        streets_at(chains, c, k - 1)
    }
}

/// The simplified graph: `nodes` are the graph nodes kept (junctions and
/// dead ends, ascending), `chains` the streets between them and
/// `incident` each kept node's streets.
pub struct Simple {
    pub nodes: Vec<usize>,
    pub chains: Vec<Chain>,
    pub incident: Vec<Vec<usize>>,
}

impl Simple {
    /// The number of streets at simplified node `n`.
    pub fn degree(&self, n: usize) -> (d: usize)
        requires
            n < self.incident@.len(),
        ensures
            d == self.incident@[n as int]@.len(),
    {
        self.incident[n].len()
    }
}

/// The first entry of `list` other than `e`.
fn first_other(list: &Vec<usize>, e: usize) -> (r: Option<usize>)
    ensures
        list@.len() == 2 && list@[0] != list@[1] ==> r == Some(
            if list@[0] != e {
                list@[0]
            } else {
                list@[1]
            },
        ),
{
    let mut j: usize = 0;
    while j < list.len()
        invariant
            j <= list@.len(),
            forall|i: int| 0 <= i < j ==> list@[i] == e,
        decreases list@.len() - j,
    {
        if list[j] != e {
            return Some(list[j]);
        }
        j = j + 1;
    }
    None
}

/// Nodes not of degree 2 list no streets.
proof fn lemma_listed_in_junction(edges: Seq<Edge>, inc: Seq<Vec<usize>>, t: int, q: int)
    requires
        !is_junction(inc, t),
    ensures
        listed_in(edges, inc, t, q) == Seq::<(int, int)>::empty(),
    decreases q,
{
    if q > 0 {
        lemma_listed_in_junction(edges, inc, t, q - 1);
    }
}

/// The edges a walk has taken by its end are those of its street.
proof fn lemma_taken_street(
    eg: Seq<Edge>,
    inc: Seq<Vec<usize>>,
    s: int,
    p: int,
    ge0: int,
    l: nat,
    used: Seq<bool>,
    used0: Seq<bool>,
)
    requires
        0 <= p < inc[s]@.len(),
        ge0 == inc[s]@[p] as int,
        walk_ends_at(eg, inc, s, ge0, l),
        used.len() == eg.len(),
        forall|x: int|
            0 <= x < eg.len() ==> (#[trigger] used[x] <==> (used0[x] || exists|j: nat|
                j < l && #[trigger] walk_edge(eg, inc, s, ge0, j) == x)),
    ensures
        forall|x: int| 0 <= x < eg.len() ==> (#[trigger] used[x] <==> (used0[x] || on_street(eg, inc, s, p, x))),
{
    assert forall|x: int| 0 <= x < eg.len() implies (#[trigger] used[x] <==> (used0[x] || on_street(eg, inc, s, p, x))) by {
        if on_street(eg, inc, s, p, x) {
            let (l2, j) = choose|l2: nat, j: nat|
                #[trigger] walk_ends_at(eg, inc, s, ge0, l2) && j < l2 && #[trigger] walk_edge(eg, inc, s, ge0, j) == x;
            lemma_end_unique(eg, inc, s, ge0, l, l2);
        }
        if exists|j: nat| j < l && #[trigger] walk_edge(eg, inc, s, ge0, j) == x {
            let j = choose|j: nat| j < l && #[trigger] walk_edge(eg, inc, s, ge0, j) == x;
            assert(on_street(eg, inc, s, p, x));
        }
    }
}

/// Walks the street that leaves junction `start` by its `p`-th edge,
/// marking its edges taken: returns the nodes it passes and the junction
/// where it ends.
fn walk_street(edges: &[Edge], incident: &[Vec<usize>], used: &mut Vec<bool>, start: usize, p: usize) -> (r: (
    Vec<usize>,
    usize,
))
    requires
        graph_ok(edges@, incident@),
        start < incident@.len(),
        is_junction(incident@, start as int),
        p < incident@[start as int]@.len(),
        old(used)@.len() == edges@.len(),
        forall|x: int| 0 <= x < edges@.len() ==> (old(used)@[x] <==> covered(edges@, incident@, start as int, p as int, x)),
        !covered(edges@, incident@, start as int, p as int, incident@[start as int]@[p as int] as int),
    ensures
        final(used)@.len() == edges@.len(),
        ({
            let e0 = incident@[start as int]@[p as int] as int;
            exists|l: nat|
                #[trigger] walk_ends_at(edges@, incident@, start as int, e0, l) && r.0@ == street_nodes(
                    edges@,
                    incident@,
                    start as int,
                    e0,
                    l,
                ) && r.1 as int == walk_node(edges@, incident@, start as int, e0, l)
        }),
        forall|x: int|
            0 <= x < edges@.len() ==> (final(used)@[x] <==> (old(used)@[x] || on_street(
                edges@,
                incident@,
                start as int,
                p as int,
                x,
            ))),
{
    let ghost eg = edges@;
    let ghost inc = incident@;
    let ghost used0 = used@;
    let ghost s = start as int;
    let e0: usize = incident[start][p];
    let ghost ge0 = e0 as int;
    proof {
        lemma_lists_own(inc, s, p as int);
        lemma_step(eg, inc, s, ge0, 0);
    }
    let mut path: Vec<usize> = Vec::new();
    path.push(start);
    let mut e: usize = e0;
    let mut cur: usize = start;
    let ghost mut k: nat = 0;
    proof {
        assert(path@ =~= Seq::new(1, |i: int| walk_node(eg, inc, s, ge0, i as nat) as usize));
    }
    loop
        invariant_except_break
            cur as int == walk_node(eg, inc, s, ge0, k),
            e as int == walk_edge(eg, inc, s, ge0, k),
            path@ == Seq::new(k + 1, |i: int| walk_node(eg, inc, s, ge0, i as nat) as usize),
            forall|j: nat| 1 <= j <= k ==> !is_junction(inc, #[trigger] walk_node(eg, inc, s, ge0, j)),
            forall|x: int|
                0 <= x < eg.len() ==> (#[trigger] used@[x] <==> (used0[x] || exists|j: nat|
                    j < k && #[trigger] walk_edge(eg, inc, s, ge0, j) == x)),
            forall|j: nat| j <= k ==> !covered(eg, inc, s, p as int, #[trigger] walk_edge(eg, inc, s, ge0, j)),
            k < eg.len(),
        invariant
            eg == edges@,
            inc == incident@,
            graph_ok(eg, inc),
            s == start,
            0 <= s < inc.len(),
            is_junction(inc, s),
            p < inc[s]@.len(),
            ge0 == inc[s]@[p as int] as int,
            lists(inc, s, ge0),
            used@.len() == eg.len(),
            used0.len() == eg.len(),
            forall|x: int| 0 <= x < eg.len() ==> (used0[x] <==> covered(eg, inc, s, p as int, x)),
        ensures
            exists|l: nat|
                #[trigger] walk_ends_at(eg, inc, s, ge0, l) && path@ == street_nodes(eg, inc, s, ge0, l) && cur as int
                    == walk_node(eg, inc, s, ge0, l),
            forall|x: int| 0 <= x < eg.len() ==> (#[trigger] used@[x] <==> (used0[x] || on_street(eg, inc, s, p as int, x))),
        decreases eg.len() - k,
    {
        proof {
            lemma_step(eg, inc, s, ge0, k);
        }
        used.set(e, true);
        let nxt: usize = if edges[e].a == cur {
            edges[e].b
        } else {
            edges[e].a
        };
        path.push(nxt);
        let ghost k1: nat = k + 1;
        proof {
            assert(nxt as int == walk_node(eg, inc, s, ge0, k1));
            assert(path@ =~= Seq::new(k1 + 1, |i: int| walk_node(eg, inc, s, ge0, i as nat) as usize));
            assert forall|x: int|
                0 <= x < eg.len() implies (#[trigger] used@[x] <==> (used0[x] || exists|j: nat|
                    j < k1 && #[trigger] walk_edge(eg, inc, s, ge0, j) == x)) by {
                if x == e as int {
                    assert(walk_edge(eg, inc, s, ge0, k) == x);
                } else if exists|j: nat| j < k1 && #[trigger] walk_edge(eg, inc, s, ge0, j) == x {
                    let j = choose|j: nat| j < k1 && #[trigger] walk_edge(eg, inc, s, ge0, j) == x;
                    assert(j < k);
                }
            }
        }
        if incident[nxt].len() != 2 {
            cur = nxt;
            proof {
                assert(walk_ends_at(eg, inc, s, ge0, k1));
                assert(path@ =~= street_nodes(eg, inc, s, ge0, k1));
                lemma_taken_street(eg, inc, s, p as int, ge0, k1, used@, used0);
            }
            break;
        }
        proof {
            lemma_step(eg, inc, s, ge0, k1);
            lemma_fresh(eg, inc, s, ge0, k1);
        }
        let next = first_other(&incident[nxt], e);
        match next {
            None => {
                cur = nxt;
                proof {
                    assert(inc[nxt as int]@[0] != inc[nxt as int]@[1]);
                    assert(false);
                }
                break;
            },
            Some(ne) => {
                proof {
                    assert(inc[nxt as int]@[0] != inc[nxt as int]@[1]);
                    assert(ne as int == walk_edge(eg, inc, s, ge0, k1));
                    // The next edge is fresh, and no earlier street holds it: a
                    // street holding it would hold the edge just walked too.
                    if covered(eg, inc, s, p as int, ne as int) {
                        let (t, q) = choose|t: int, q: int|
                            #![trigger end_before(t, q, s, p as int), on_street(eg, inc, t, q, ne as int)]
                            0 <= t < inc.len() && 0 <= q < inc[t]@.len() && is_junction(inc, t) && end_before(
                                t,
                                q,
                                s,
                                p as int,
                            ) && on_street(eg, inc, t, q, ne as int);
                        let e1 = inc[t]@[q] as int;
                        lemma_lists_own(inc, t, q);
                        let (l, j) = choose|l: nat, j: nat|
                            #[trigger] walk_ends_at(eg, inc, t, e1, l) && j < l && #[trigger] walk_edge(eg, inc, t, e1, j)
                                == ne as int;
                        assert(touches(eg, ne as int, nxt as int));
                        lemma_interior(eg, inc, t, e1, l, j, nxt as int, e as int);
                        assert(on_street(eg, inc, t, q, e as int));
                        assert(covered(eg, inc, s, p as int, walk_edge(eg, inc, s, ge0, k)));
                    }
                    assert(!used@[ne as int]) by {
                        if exists|j: nat| j < k1 && #[trigger] walk_edge(eg, inc, s, ge0, j) == ne as int {
                            let j = choose|j: nat| j < k1 && #[trigger] walk_edge(eg, inc, s, ge0, j) == ne as int;
                            assert(walk_edge(eg, inc, s, ge0, j) != walk_edge(eg, inc, s, ge0, k1));
                        }
                    }
                    // The k + 2 walk edges so far are distinct edges of the graph.
                    let t = Seq::new(k1 + 1, |i: int| walk_edge(eg, inc, s, ge0, i as nat));
                    assert forall|i: int| 0 <= i < t.len() implies 0 <= #[trigger] t[i] < eg.len() by {
                        lemma_step(eg, inc, s, ge0, i as nat);
                    }
                    assert(t.no_duplicates()) by {
                        assert forall|i: int, j: int| 0 <= i < t.len() && 0 <= j < t.len() && i != j implies t[i] != t[j] by {
                            if i < j {
                                assert(walk_edge(eg, inc, s, ge0, i as nat) != walk_edge(eg, inc, s, ge0, j as nat));
                            } else {
                                assert(walk_edge(eg, inc, s, ge0, j as nat) != walk_edge(eg, inc, s, ge0, i as nat));
                            }
                        }
                    }
                    lemma_distinct_below(t, eg.len() as int);
                }
                if used[ne] {
                    cur = nxt;
                    break;
                }
                e = ne;
                cur = nxt;
                proof {
                    k = k1;
                }
            },
        }
    }
    (path, cur)
}

/// `chains` are the streets of the ends `ends`, in order.
pub open spec fn chains_match(edges: Seq<Edge>, inc: Seq<Vec<usize>>, chains: Seq<Chain>, ends: Seq<(int, int)>) -> bool {
    &&& chains.len() == ends.len()
    &&& forall|k: int| 0 <= k < chains.len() ==> chain_from(edges, inc, #[trigger] chains[k], ends[k].0, ends[k].1)
}

/// The graph with its nodes of degree 2 dissolved: the kept nodes are the
/// junctions and dead ends, ascending; the streets are listed by walking
/// from each kept node, in node order, out along each of its edges in
/// order, through nodes of degree 2 to the next junction, skipping edges
/// already walked, so each street is listed once, from the end that comes
/// first; each kept node lists its streets in order.
pub fn simplify(edges: &[Edge], incident: &[Vec<usize>]) -> (r: Simple)
    requires
        graph_ok(edges@, incident@),
    ensures
        r.nodes@ == junctions_upto(incident@, incident@.len() as int),
        chains_match(edges@, incident@, r.chains@, listed_before(edges@, incident@, incident@.len() as int)),
        r.incident@.len() == r.nodes@.len(),
        forall|c: int|
            0 <= c < r.incident@.len() ==> (#[trigger] r.incident@[c])@ == streets_at(r.chains@, c, r.chains@.len() as int),
{
    let ghost eg = edges@;
    let ghost inc = incident@;
    let n = incident.len();
    let mut map: Vec<usize> = Vec::new();
    let mut nodes: Vec<usize> = Vec::new();
    let mut i: usize = 0;
    while i < n
        invariant
            inc == incident@,
            n == inc.len(),
            i <= n,
            map@.len() == i,
            nodes@ == junctions_upto(inc, i as int),
            nodes@.len() <= i,
            forall|v: int| 0 <= v < i && is_junction(inc, v) ==> #[trigger] map@[v] as int == rank(inc, v),
        decreases n - i,
    {
        if incident[i].len() != 2 {
            map.push(nodes.len());
            nodes.push(i);
        } else {
            map.push(usize::MAX);
        }
        i = i + 1;
    }
    let mut used: Vec<bool> = Vec::new();
    let mut k: usize = 0;
    while k < edges.len()
        invariant
            k <= edges@.len(),
            used@.len() == k,
            forall|x: int| 0 <= x < k ==> !#[trigger] used@[x],
        decreases edges@.len() - k,
    {
        used.push(false);
        k = k + 1;
    }
    proof {
        assert forall|x: int| 0 <= x < eg.len() implies (used@[x] <==> covered(eg, inc, 0, 0, x)) by {
            if covered(eg, inc, 0, 0, x) {
                let (t, q) = choose|t: int, q: int|
                    #![trigger end_before(t, q, 0, 0), on_street(eg, inc, t, q, x)]
                    0 <= t < inc.len() && 0 <= q < inc[t]@.len() && is_junction(inc, t) && end_before(t, q, 0, 0)
                        && on_street(eg, inc, t, q, x);
            }
        }
    }
    let mut chains: Vec<Chain> = Vec::new();
    let mut start: usize = 0;
    while start < n
        invariant
            eg == edges@,
            inc == incident@,
            n == inc.len(),
            graph_ok(eg, inc),
            start <= n,
            map@.len() == n,
            forall|v: int| 0 <= v < n && is_junction(inc, v) ==> #[trigger] map@[v] as int == rank(inc, v),
            nodes@ == junctions_upto(inc, n as int),
            nodes@.len() <= n,
            used@.len() == eg.len(),
            forall|x: int| 0 <= x < eg.len() ==> (#[trigger] used@[x] <==> covered(eg, inc, start as int, 0, x)),
            chains_match(eg, inc, chains@, listed_before(eg, inc, start as int)),
        decreases n - start,
    {
        if incident[start].len() == 2 {
            proof {
                lemma_listed_in_junction(eg, inc, start as int, inc[start as int]@.len() as int);
                assert(listed_before(eg, inc, start + 1) =~= listed_before(eg, inc, start as int));
                assert forall|x: int| 0 <= x < eg.len() implies (#[trigger] used@[x] <==> covered(eg, inc, start + 1, 0, x)) by {
                    lemma_covered_node(eg, inc, start as int, x);
                }
            }
            start = start + 1;
            continue;
        }
        let mut p: usize = 0;
        while p < incident[start].len()
            invariant
                eg == edges@,
                inc == incident@,
                n == inc.len(),
                graph_ok(eg, inc),
                start < n,
                is_junction(inc, start as int),
                p <= inc[start as int]@.len(),
                map@.len() == n,
                forall|v: int| 0 <= v < n && is_junction(inc, v) ==> #[trigger] map@[v] as int == rank(inc, v),
                nodes@.len() <= n,
                used@.len() == eg.len(),
                forall|x: int| 0 <= x < eg.len() ==> (#[trigger] used@[x] <==> covered(eg, inc, start as int, p as int, x)),
                chains_match(eg, inc, chains@, listed_before(eg, inc, start as int) + listed_in(eg, inc, start as int, p as int)),
            decreases inc[start as int]@.len() - p,
        {
            let e0 = incident[start][p];
            let ghost sp = (start as int, p as int);
            proof {
                lemma_taken_iff_unlisted(eg, inc, start as int, p as int);
                lemma_lists_own(inc, start as int, p as int);
                let j = p as int;
                assert(0 <= inc[start as int]@[j] < eg.len());
            }
            if used[e0] {
                proof {
                    assert(!listed_from(eg, inc, start as int, p as int));
                    assert(listed_in(eg, inc, start as int, p + 1) == listed_in(eg, inc, start as int, p as int));
                    assert forall|x: int| 0 <= x < eg.len() implies (#[trigger] used@[x] <==> covered(
                        eg,
                        inc,
                        start as int,
                        p + 1,
                        x,
                    )) by {
                        lemma_covered_step(eg, inc, start as int, p as int, x);
                        if on_street(eg, inc, start as int, p as int, x) {
                            lemma_unlisted_covered(eg, inc, start as int, p as int, x);
                        }
                    }
                }
                p = p + 1;
                continue;
            }
            let ghost before = chains@;
            let (path, end) = walk_street(edges, incident, &mut used, start, p);
            proof {
                assert forall|x: int| 0 <= x < eg.len() implies (#[trigger] used@[x] <==> covered(
                    eg,
                    inc,
                    start as int,
                    p + 1,
                    x,
                )) by {
                    lemma_covered_step(eg, inc, start as int, p as int, x);
                }
            }
            let ghost l = choose|l: nat|
                #[trigger] walk_ends_at(eg, inc, start as int, e0 as int, l) && path@ == street_nodes(
                    eg,
                    inc,
                    start as int,
                    e0 as int,
                    l,
                ) && end as int == walk_node(eg, inc, start as int, e0 as int, l);
            proof {
                lemma_reverse(eg, inc, start as int, e0 as int, l);
            }
            if incident[end].len() == 2 {
                proof {
                    assert(false);
                }
                p = p + 1;
                continue;
            }
            let ca = map[start];
            let cb = map[end];
            proof {
                assert(map@[start as int] as int == rank(inc, start as int));
                assert(map@[end as int] as int == rank(inc, end as int));
                lemma_rank_bound(inc, start as int);
                lemma_rank_bound(inc, end as int);
            }
            if ca == usize::MAX || cb == usize::MAX {
                proof {
                    assert(false);
                }
                p = p + 1;
                continue;
            }
            let chain = Chain { a: ca, b: cb, path };
            chains.push(chain);
            proof {
                assert(listed_from(eg, inc, start as int, p as int));
                let ends = listed_before(eg, inc, start as int) + listed_in(eg, inc, start as int, p + 1);
                let ends0 = listed_before(eg, inc, start as int) + listed_in(eg, inc, start as int, p as int);
                assert(ends =~= ends0.push((start as int, p as int)));
                assert(chain_from(eg, inc, chain, start as int, p as int));
                assert forall|k2: int| 0 <= k2 < chains@.len() implies chain_from(eg, inc, #[trigger] chains@[k2], ends[k2].0, ends[k2].1) by {
                    if k2 < before.len() {
                        assert(chains@[k2] == before[k2]);
                        assert(ends[k2] == ends0[k2]);
                    }
                }
            }
            p = p + 1;
        }
        proof {
            assert(listed_before(eg, inc, start + 1) =~= listed_before(eg, inc, start as int) + listed_in(
                eg,
                inc,
                start as int,
                inc[start as int]@.len() as int,
            ));
            assert forall|x: int| 0 <= x < eg.len() implies (#[trigger] used@[x] <==> covered(eg, inc, start + 1, 0, x)) by {
                lemma_covered_node(eg, inc, start as int, x);
            }
        }
        start = start + 1;
    }
    // Each kept node's streets, in order.
    let mut inc_out: Vec<Vec<usize>> = Vec::new();
    let mut c: usize = 0;
    while c < nodes.len()
        invariant
            c <= nodes@.len(),
            inc_out@.len() == c,
            forall|c2: int| 0 <= c2 < c ==> (#[trigger] inc_out@[c2])@ == streets_at(chains@, c2, chains@.len() as int),
        decreases nodes@.len() - c,
    {
        let mut list: Vec<usize> = Vec::new();
        let mut k: usize = 0;
        while k < chains.len()
            invariant
                k <= chains@.len(),
                list@ == streets_at(chains@, c as int, k as int),
            decreases chains@.len() - k,
        {
            if chains[k].a == c || chains[k].b == c {
                list.push(k);
            }
            k = k + 1;
        }
        inc_out.push(list);
        c = c + 1;
    }
    Simple { nodes, chains, incident: inc_out }
}

/// Ranks are below the number of nodes.
proof fn lemma_rank_bound(inc: Seq<Vec<usize>>, v: int)
    requires
        0 <= v,
    ensures
        rank(inc, v) <= v,
    decreases v,
{
    if v > 0 {
        lemma_rank_bound(inc, v - 1);
    }
}

/// Nodes `a` and `b` are already joined by an edge listed at `a`.
pub open spec fn joined(edges: Seq<Edge>, inc: Seq<Vec<usize>>, a: int, b: int) -> bool {
    exists|j: int|
        0 <= j < inc[a]@.len() && {
            let e = #[trigger] inc[a]@[j] as int;
            (edges[e].a as int == a && edges[e].b as int == b) || (edges[e].a as int == b && edges[e].b as int == a)
        }
}

/// Joins `a` and `b` by a new edge of class `class`, unless `a` and `b`
/// are the same node or already joined. The graph stays well formed.
pub fn add_edge_raw(edges: &mut Vec<Edge>, incident: &mut Vec<Vec<usize>>, a: usize, b: usize, class: Class)
    requires
        graph_ok(old(edges)@, old(incident)@),
        a < old(incident)@.len(),
        b < old(incident)@.len(),
    ensures
        graph_ok(final(edges)@, final(incident)@),
        final(incident)@.len() == old(incident)@.len(),
        if a == b || joined(old(edges)@, old(incident)@, a as int, b as int) {
            &&& final(edges)@ == old(edges)@
            &&& final(incident)@ == old(incident)@
        } else {
            let i = old(edges)@.len() as usize;
            &&& final(edges)@ == old(edges)@.push(Edge { a, b, class })
            &&& final(incident)@[a as int]@ == old(incident)@[a as int]@.push(i)
            &&& final(incident)@[b as int]@ == old(incident)@[b as int]@.push(i)
            &&& forall|v: int| 0 <= v < final(incident)@.len() && v != a && v != b ==> final(incident)@[v] == old(incident)@[v]
        },
{
    if a == b {
        return;
    }
    let mut j: usize = 0;
    while j < incident[a].len()
        invariant
            graph_ok(edges@, incident@),
            a < incident@.len(),
            b < incident@.len(),
            j <= incident@[a as int]@.len(),
            forall|k: int|
                0 <= k < j ==> {
                    let e = #[trigger] incident@[a as int]@[k] as int;
                    !((edges@[e].a as int == a && edges@[e].b as int == b) || (edges@[e].a as int == b && edges@[e].b as int
                        == a))
                },
        decreases incident@[a as int]@.len() - j,
    {
        let e = incident[a][j];
        proof {
            let k = j as int;
            assert(0 <= incident@[a as int]@[k] < edges@.len());
        }
        if (edges[e].a == a && edges[e].b == b) || (edges[e].a == b && edges[e].b == a) {
            return;
        }
        j = j + 1;
    }
    let ghost eg0 = edges@;
    let ghost inc0 = incident@;
    let i = edges.len();
    edges.push(Edge { a, b, class });
    incident[a].push(i);
    incident[b].push(i);
    proof {
        let eg = edges@;
        let inc = incident@;
        assert(inc[a as int]@ == inc0[a as int]@.push(i));
        assert(inc[b as int]@ == inc0[b as int]@.push(i));
        assert(forall|v: int| 0 <= v < inc.len() && v != a && v != b ==> inc[v] == inc0[v]);
        assert forall|e: int| 0 <= e < eg.len() implies (#[trigger] eg[e]).a < inc.len() && eg[e].b < inc.len() && eg[e].a
            != eg[e].b by {
            if e < eg0.len() {
                assert(eg[e] == eg0[e]);
            }
        }
        assert forall|v: int, k: int| 0 <= v < inc.len() && 0 <= k < inc[v]@.len() implies {
            let e = #[trigger] inc[v]@[k] as int;
            &&& 0 <= e < eg.len()
            &&& (eg[e].a as int == v || eg[e].b as int == v)
        } by {
            if k < inc0[v]@.len() {
                assert(inc[v]@[k] == inc0[v]@[k]);
                let e = inc0[v]@[k] as int;
                assert(eg[e] == eg0[e]);
            }
        }
        assert forall|v: int, k1: int, k2: int| 0 <= v < inc.len() && 0 <= k1 < k2 < inc[v]@.len() implies inc[v]@[k1]
            != inc[v]@[k2] by {
            if k2 < inc0[v]@.len() {
                assert(inc[v]@[k1] == inc0[v]@[k1] && inc[v]@[k2] == inc0[v]@[k2]);
            } else {
                assert(inc[v]@[k1] == inc0[v]@[k1]);
                assert(inc0[v]@[k1] < eg0.len());
            }
        }
        assert forall|e: int| 0 <= e < eg.len() implies lists(inc, (#[trigger] eg[e]).a as int, e) && lists(inc, eg[e].b as int, e) by {
            if e < eg0.len() {
                assert(eg[e] == eg0[e]);
                let x = eg0[e].a as int;
                let y = eg0[e].b as int;
                assert(lists(inc0, x, e) && lists(inc0, y, e));
                let kx = choose|kx: int| 0 <= kx < inc0[x]@.len() && #[trigger] inc0[x]@[kx] as int == e;
                let ky = choose|ky: int| 0 <= ky < inc0[y]@.len() && #[trigger] inc0[y]@[ky] as int == e;
                assert(inc[x]@[kx] == inc0[x]@[kx]);
                assert(inc[y]@[ky] == inc0[y]@[ky]);
            } else {
                assert(inc[a as int]@[inc0[a as int]@.len() as int] == i);
                assert(inc[b as int]@[inc0[b as int]@.len() as int] == i);
            }
        }
    }
}

/// `s` without its entries equal to `e`.
pub open spec fn without(s: Seq<usize>, e: usize) -> Seq<usize>
    decreases s.len(),
{
    if s.len() == 0 {
        Seq::empty()
    } else if s.last() == e {
        without(s.drop_last(), e)
    } else {
        without(s.drop_last(), e).push(s.last())
    }
}

proof fn lemma_push_contains(d: Seq<usize>, y: usize, x: usize)
    ensures
        d.push(y).contains(x) <==> (d.contains(x) || x == y),
{
    let s = d.push(y);
    if s.contains(x) {
        let k = choose|k: int| 0 <= k < s.len() && s[k] == x;
        if k < d.len() {
            assert(d[k] == x);
        }
    }
    if d.contains(x) {
        let k = choose|k: int| 0 <= k < d.len() && d[k] == x;
        assert(s[k] == x);
    }
    if x == y {
        assert(s[d.len() as int] == x);
    }
}

proof fn lemma_without(s: Seq<usize>, e: usize, x: usize)
    ensures
        without(s, e).contains(x) <==> (s.contains(x) && x != e),
        s.no_duplicates() ==> without(s, e).no_duplicates(),
    decreases s.len(),
{
    if s.len() > 0 {
        let d = s.drop_last();
        let y = s.last();
        lemma_without(d, e, x);
        lemma_without(d, e, y);
        assert(s =~= d.push(y));
        lemma_push_contains(d, y, x);
        lemma_push_contains(without(d, e), y, x);
        if s.no_duplicates() {
            assert(d.no_duplicates());
            assert(!d.contains(y)) by {
                if d.contains(y) {
                    let k = choose|k: int| 0 <= k < d.len() && d[k] == y;
                    assert(s[k] == s[s.len() - 1]);
                }
            }
            if y != e {
                let w = without(d, e);
                assert(!w.contains(y));
                assert forall|i: int, j: int| 0 <= i < j < w.push(y).len() implies w.push(y)[i] != w.push(y)[j] by {
                    if j == w.len() {
                        assert(w.push(y)[i] == w[i]);
                        assert(w.contains(w[i]));
                    } else {
                        assert(w.push(y)[i] == w[i] && w.push(y)[j] == w[j]);
                    }
                }
            }
        }
    } else {
        assert(without(s, e) =~= Seq::<usize>::empty());
    }
}

/// Splits edge `e` at node `n`: unless `n` is already an end of `e`, the
/// edge is rewritten to end at `n` and a new edge of the same class joins
/// `n` to the former far end. The graph stays well formed. Returns `n`.
pub fn split_edge(edges: &mut Vec<Edge>, incident: &mut Vec<Vec<usize>>, e: usize, n: usize) -> (r: usize)
    requires
        graph_ok(old(edges)@, old(incident)@),
        e < old(edges)@.len(),
        n < old(incident)@.len(),
    ensures
        r == n,
        graph_ok(final(edges)@, final(incident)@),
        final(incident)@.len() == old(incident)@.len(),
        ({
            let a = old(edges)@[e as int].a;
            let b = old(edges)@[e as int].b;
            let class = old(edges)@[e as int].class;
            let i = old(edges)@.len() as usize;
            if n == a || n == b {
                &&& final(edges)@ == old(edges)@
                &&& final(incident)@ == old(incident)@
            } else {
                &&& final(edges)@ == old(edges)@.update(e as int, Edge { a, b: n, class }).push(Edge { a: n, b, class })
                &&& final(incident)@[b as int]@ == without(old(incident)@[b as int]@, e).push(i)
                &&& final(incident)@[n as int]@ == old(incident)@[n as int]@.push(e).push(i)
                &&& forall|v: int| 0 <= v < final(incident)@.len() && v != b && v != n ==> final(incident)@[v] == old(incident)@[v]
            }
        }),
{
    let a = edges[e].a;
    let b = edges[e].b;
    let class = edges[e].class;
    if n == a || n == b {
        return n;
    }
    let ghost eg0 = edges@;
    let ghost inc0 = incident@;
    edges.set(e, Edge { a, b: n, class });
    // Drop `e` from the far end's list.
    let mut kept: Vec<usize> = Vec::new();
    let mut j: usize = 0;
    while j < incident[b].len()
        invariant
            incident@ == inc0,
            b < inc0.len(),
            j <= inc0[b as int]@.len(),
            kept@ == without(inc0[b as int]@.subrange(0, j as int), e),
        decreases inc0[b as int]@.len() - j,
    {
        let x = incident[b][j];
        proof {
            let t = inc0[b as int]@.subrange(0, j + 1);
            assert(t.drop_last() =~= inc0[b as int]@.subrange(0, j as int));
            assert(t.last() == x);
        }
        if x != e {
            kept.push(x);
        }
        j = j + 1;
    }
    proof {
        assert(inc0[b as int]@.subrange(0, inc0[b as int]@.len() as int) =~= inc0[b as int]@);
    }
    incident.set(b, kept);
    let i = edges.len();
    incident[n].push(e);
    edges.push(Edge { a: n, b, class });
    incident[n].push(i);
    incident[b].push(i);
    proof {
        let eg = edges@;
        let inc = incident@;
        assert(eg =~= eg0.update(e as int, Edge { a, b: n, class }).push(Edge { a: n, b, class }));
        assert(inc[b as int]@ == without(inc0[b as int]@, e).push(i));
        assert(inc[n as int]@ == inc0[n as int]@.push(e).push(i));
        assert(forall|v: int| 0 <= v < inc.len() && v != b && v != n ==> inc[v] == inc0[v]);
        // Old lists hold only old edges, each once.
        assert(i == eg0.len());
        assert forall|x: usize| #[trigger] inc[b as int]@.contains(x) <==> ((inc0[b as int]@.contains(x) && x != e) || x == i) by {
            lemma_without(inc0[b as int]@, e, x);
            lemma_push_contains(without(inc0[b as int]@, e), i, x);
        }
        assert forall|x: usize| #[trigger] inc[n as int]@.contains(x) <==> (inc0[n as int]@.contains(x) || x == e || x == i) by {
            lemma_push_contains(inc0[n as int]@, e, x);
            lemma_push_contains(inc0[n as int]@.push(e), i, x);
        }
        assert forall|ed: int| 0 <= ed < eg.len() implies (#[trigger] eg[ed]).a < inc.len() && eg[ed].b < inc.len()
            && eg[ed].a != eg[ed].b by {
            if ed < eg0.len() && ed != e {
                assert(eg[ed] == eg0[ed]);
            }
        }
        assert forall|v: int, k: int| 0 <= v < inc.len() && 0 <= k < inc[v]@.len() implies {
            let x = #[trigger] inc[v]@[k] as int;
            &&& 0 <= x < eg.len()
            &&& (eg[x].a as int == v || eg[x].b as int == v)
        } by {
            let x = inc[v]@[k];
            assert(inc[v]@.contains(x));
            if v == b as int {
                if x != i {
                    assert(inc0[b as int]@.contains(x) && x != e);
                    let k0 = choose|k0: int| 0 <= k0 < inc0[b as int]@.len() && inc0[b as int]@[k0] == x;
                    assert(inc0[b as int]@[k0] as int == x as int);
                    assert(eg[x as int] == eg0[x as int]);
                }
            } else if v == n as int {
                if x != i && x != e {
                    assert(inc0[n as int]@.contains(x));
                    let k0 = choose|k0: int| 0 <= k0 < inc0[n as int]@.len() && inc0[n as int]@[k0] == x;
                    assert(inc0[n as int]@[k0] as int == x as int);
                    assert(eg[x as int] == eg0[x as int]);
                }
            } else {
                assert(inc[v] == inc0[v]);
                let x0 = inc0[v]@[k] as int;
                assert(0 <= x0 < eg0.len());
                if x0 == e as int {
                    // `e` touched only `a` and `b`; `v` is neither `b` nor `n`, so `v == a`.
                    assert(v == a as int);
                } else {
                    assert(eg[x0] == eg0[x0]);
                }
            }
        }
        assert forall|v: int, k1: int, k2: int| 0 <= v < inc.len() && 0 <= k1 < k2 < inc[v]@.len() implies inc[v]@[k1]
            != inc[v]@[k2] by {
            if v == b as int {
                lemma_without(inc0[b as int]@, e, 0);
                assert(inc0[b as int]@.no_duplicates()) by {
                    assert forall|q1: int, q2: int|
                        0 <= q1 < inc0[b as int]@.len() && 0 <= q2 < inc0[b as int]@.len() && q1 != q2 implies inc0[b as int]@[q1]
                        != inc0[b as int]@[q2] by {
                        if q2 < q1 {
                            assert(inc0[b as int]@[q2] != inc0[b as int]@[q1]);
                        }
                    }
                }
                let w = without(inc0[b as int]@, e);
                assert(w.no_duplicates());
                if k2 < w.len() {
                    assert(inc[v]@[k1] == w[k1] && inc[v]@[k2] == w[k2]);
                } else {
                    assert(inc[v]@[k1] == w[k1]);
                    assert(w.contains(w[k1]));
                    lemma_without(inc0[b as int]@, e, w[k1]);
                    let q = choose|q: int| 0 <= q < inc0[b as int]@.len() && inc0[b as int]@[q] == w[k1];
                    assert(inc0[b as int]@[q] < eg0.len());
                }
            } else if v == n as int {
                let old_n = inc0[n as int]@;
                if k2 < old_n.len() {
                    assert(inc[v]@[k1] == old_n[k1] && inc[v]@[k2] == old_n[k2]);
                } else {
                    assert(inc[v]@[k1] == old_n[k1] || k1 == old_n.len());
                    if k1 < old_n.len() {
                        assert(inc[v]@[k1] == old_n[k1]);
                        let x = old_n[k1] as int;
                        assert(0 <= x < eg0.len());
                        assert(eg0[x].a as int == n || eg0[x].b as int == n);
                        assert(x != e as int);
                    }
                }
            } else {
                assert(inc[v] == inc0[v]);
            }
        }
        assert forall|ed: int| 0 <= ed < eg.len() implies lists(inc, (#[trigger] eg[ed]).a as int, ed) && lists(inc, eg[ed].b as int, ed) by {
            if ed == i as int {
                assert(inc[n as int]@[inc0[n as int]@.len() as int + 1] == i);
                assert(inc[b as int]@.contains(i));
                let kb = choose|kb: int| 0 <= kb < inc[b as int]@.len() && inc[b as int]@[kb] == i;
                assert(inc[b as int]@[kb] as int == ed);
            } else if ed == e as int {
                assert(inc[n as int]@[inc0[n as int]@.len() as int] == e);
                assert(lists(inc0, a as int, ed));
                let ka = choose|ka: int| 0 <= ka < inc0[a as int]@.len() && #[trigger] inc0[a as int]@[ka] as int == ed;
                assert(inc[a as int] == inc0[a as int]);
                assert(inc[a as int]@[ka] as int == ed);
            } else {
                assert(eg[ed] == eg0[ed]);
                let x = eg0[ed].a as int;
                let y = eg0[ed].b as int;
                assert(lists(inc0, x, ed) && lists(inc0, y, ed));
                assert forall|z: int| (z == x || z == y) implies lists(inc, z, ed) by {
                    let kz = choose|kz: int| 0 <= kz < inc0[z]@.len() && #[trigger] inc0[z]@[kz] as int == ed;
                    if z == b as int {
                        assert(inc0[b as int]@.contains(ed as usize));
                        assert(inc[b as int]@.contains(ed as usize));
                        let k2 = choose|k2: int| 0 <= k2 < inc[b as int]@.len() && inc[b as int]@[k2] == ed as usize;
                        assert(inc[b as int]@[k2] as int == ed);
                    } else if z == n as int {
                        assert(inc[n as int]@[kz] == inc0[n as int]@[kz]);
                    } else {
                        assert(inc[z] == inc0[z]);
                    }
                }
            }
        }
    }
    n
}

/// A street that leaves junction `s` by its `p`-th edge and arrives at
/// junction `t` by its `q`-th edge is listed from exactly one of its two
/// ends: each street of the simplified graph appears once.
pub proof fn lemma_street_listed_once(edges: Seq<Edge>, inc: Seq<Vec<usize>>, s: int, p: int, l: nat)
    requires
        graph_ok(edges, inc),
        0 <= s < inc.len(),
        is_junction(inc, s),
        0 <= p < inc[s]@.len(),
        walk_ends_at(edges, inc, s, inc[s]@[p] as int, l),
    ensures
        ({
            let e0 = inc[s]@[p] as int;
            let t = walk_node(edges, inc, s, e0, l);
            let f = walk_edge(edges, inc, s, e0, (l - 1) as nat);
            exists|q: int|
                0 <= q < inc[t]@.len() && inc[t]@[q] as int == f && (listed_from(edges, inc, s, p) <==> !listed_from(
                    edges,
                    inc,
                    t,
                    q,
                ))
        }),
{
    let e0 = inc[s]@[p] as int;
    lemma_lists_own(inc, s, p);
    lemma_reverse(edges, inc, s, e0, l);
    let t = walk_node(edges, inc, s, e0, l);
    let f = walk_edge(edges, inc, s, e0, (l - 1) as nat);
    let q = choose|q: int| 0 <= q < inc[t]@.len() && #[trigger] inc[t]@[q] as int == f;
    assert(inc[t]@[q] as int == f);
    // The street from (t, q) arrives at s by e0, and (s, p) is the only end
    // whose street arrives at t by f, and the other way round.
    assert(street_arrives(edges, inc, t, q, s, e0));
    assert(street_arrives(edges, inc, s, p, t, f));
    assert forall|t2: int, q2: int|
        0 <= t2 < inc.len() && 0 <= q2 < inc[t2]@.len() && is_junction(inc, t2) && #[trigger] street_arrives(
            edges,
            inc,
            t2,
            q2,
            s,
            e0,
        ) implies t2 == t && q2 == q by {
        let e2 = inc[t2]@[q2] as int;
        lemma_lists_own(inc, t2, q2);
        let l2 = choose|l2: nat|
            #[trigger] walk_ends_at(edges, inc, t2, e2, l2) && walk_node(edges, inc, t2, e2, l2) == s && walk_edge(
                edges,
                inc,
                t2,
                e2,
                (l2 - 1) as nat,
            ) == e0;
        lemma_reverse(edges, inc, t2, e2, l2);
        lemma_end_unique(edges, inc, s, e0, l, l2);
        assert(walk_node(edges, inc, s, e0, l) == t2);
        assert(walk_edge(edges, inc, s, e0, (l - 1) as nat) == e2);
        assert(inc[t]@[q2] == inc[t]@[q]);
    }
    assert forall|s2: int, p2: int|
        0 <= s2 < inc.len() && 0 <= p2 < inc[s2]@.len() && is_junction(inc, s2) && #[trigger] street_arrives(
            edges,
            inc,
            s2,
            p2,
            t,
            f,
        ) implies s2 == s && p2 == p by {
        let e2 = inc[s2]@[p2] as int;
        lemma_lists_own(inc, s2, p2);
        let l2 = choose|l2: nat|
            #[trigger] walk_ends_at(edges, inc, s2, e2, l2) && walk_node(edges, inc, s2, e2, l2) == t && walk_edge(
                edges,
                inc,
                s2,
                e2,
                (l2 - 1) as nat,
            ) == f;
        lemma_reverse(edges, inc, s2, e2, l2);
        let e1 = inc[t]@[q] as int;
        lemma_end_unique(edges, inc, t, e1, l, l2);
        assert(walk_node(edges, inc, t, e1, l) == s2);
        assert(walk_edge(edges, inc, t, e1, (l - 1) as nat) == e2);
        assert(inc[s]@[p2] == inc[s]@[p]);
    }
    // The two ends differ.
    lemma_fresh(edges, inc, s, e0, (l - 1) as nat);
    lemma_step(edges, inc, s, e0, (l - 1) as nat);
    if t == s && q == p {
        if l == 1 {
            assert(walk_node(edges, inc, s, e0, 1) != walk_node(edges, inc, s, e0, 0));
        } else {
            assert(walk_edge(edges, inc, s, e0, 0) != walk_edge(edges, inc, s, e0, (l - 1) as nat));
        }
    }
    if listed_from(edges, inc, s, p) {
        assert(!end_before(t, q, s, p));
        assert(end_before(s, p, t, q));
        assert(!listed_from(edges, inc, t, q));
    } else {
        let (t2, q2) = choose|t2: int, q2: int|
            #![trigger end_before(t2, q2, s, p), street_arrives(edges, inc, t2, q2, s, e0)]
            0 <= t2 < inc.len() && 0 <= q2 < inc[t2]@.len() && is_junction(inc, t2) && end_before(t2, q2, s, p)
                && street_arrives(edges, inc, t2, q2, s, e0);
        assert(t2 == t && q2 == q);
        assert(is_junction(inc, t));
        assert(listed_from(edges, inc, t, q));
    }
}

} // verus!
