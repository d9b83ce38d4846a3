//! Connectivity in a graph given by an adjacency predicate on cells:
//! walks, the connected relation, and closure under adjacency. The
//! component labellings of the stages are proved against these.

use vstd::prelude::*;

verus! {

/// `p` is a non-empty walk: consecutive cells are adjacent.
pub open spec fn is_walk(adj: spec_fn(int, int) -> bool, p: Seq<int>) -> bool {
    p.len() > 0 && forall|i: int| 0 <= i < p.len() - 1 ==> #[trigger] adj(p[i], p[i + 1])
}

/// Some walk leads from `a` to `b`.
pub open spec fn connected(adj: spec_fn(int, int) -> bool, a: int, b: int) -> bool {
    exists|p: Seq<int>| #[trigger] is_walk(adj, p) && p[0] == a && p.last() == b
}

/// Adjacency is symmetric.
pub open spec fn symmetric(adj: spec_fn(int, int) -> bool) -> bool {
    forall|u: int, v: int| #[trigger] adj(u, v) ==> adj(v, u)
}

/// No edge leaves the set `s`.
pub open spec fn closed(adj: spec_fn(int, int) -> bool, s: spec_fn(int) -> bool) -> bool {
    forall|u: int, v: int| s(u) && #[trigger] adj(u, v) ==> s(v)
}

/// The cells connected to `a`.
pub open spec fn component(adj: spec_fn(int, int) -> bool, a: int) -> Set<int> {
    Set::new(|b: int| connected(adj, a, b))
}

pub proof fn lemma_connected_refl(adj: spec_fn(int, int) -> bool, a: int)
    ensures
        connected(adj, a, a),
{
    let p = seq![a];
    assert(is_walk(adj, p));
}

pub proof fn lemma_connected_step(adj: spec_fn(int, int) -> bool, a: int, c: int, b: int)
    requires
        connected(adj, a, c),
        adj(c, b),
    ensures
        connected(adj, a, b),
{
    let p = choose|p: Seq<int>| #[trigger] is_walk(adj, p) && p[0] == a && p.last() == c;
    let q = p.push(b);
    assert forall|i: int| 0 <= i < q.len() - 1 implies #[trigger] adj(q[i], q[i + 1]) by {
        if i < p.len() - 1 {
            assert(q[i] == p[i] && q[i + 1] == p[i + 1]);
        } else {
            assert(q[i] == c);
        }
    }
    assert(is_walk(adj, q));
}

pub proof fn lemma_connected_sym(adj: spec_fn(int, int) -> bool, a: int, b: int)
    requires
        symmetric(adj),
        connected(adj, a, b),
    ensures
        connected(adj, b, a),
{
    let p = choose|p: Seq<int>| #[trigger] is_walk(adj, p) && p[0] == a && p.last() == b;
    let q = p.reverse();
    assert forall|i: int| 0 <= i < q.len() - 1 implies #[trigger] adj(q[i], q[i + 1]) by {
        let j = p.len() - 2 - i;
        assert(adj(p[j], p[j + 1]));
        assert(q[i] == p[j + 1]);
        assert(q[i + 1] == p[j]);
    }
    assert(is_walk(adj, q));
    assert(q[0] == b);
    assert(q.last() == a);
}

pub proof fn lemma_connected_trans(adj: spec_fn(int, int) -> bool, a: int, b: int, c: int)
    requires
        connected(adj, a, b),
        connected(adj, b, c),
    ensures
        connected(adj, a, c),
{
    let p = choose|p: Seq<int>| #[trigger] is_walk(adj, p) && p[0] == a && p.last() == b;
    let q = choose|q: Seq<int>| #[trigger] is_walk(adj, q) && q[0] == b && q.last() == c;
    let r = p + q.drop_first();
    assert forall|i: int| 0 <= i < r.len() - 1 implies #[trigger] adj(r[i], r[i + 1]) by {
        if i < p.len() - 1 {
            assert(r[i] == p[i] && r[i + 1] == p[i + 1]);
        } else if i == p.len() - 1 {
            assert(r[i] == b);
            assert(r[i + 1] == q[1]);
            assert(adj(q[0], q[1]));
        } else {
            let k = i - p.len() + 1;
            assert(r[i] == q[k]);
            assert(r[i + 1] == q[k + 1]);
            assert(adj(q[k], q[k + 1]));
        }
    }
    assert(is_walk(adj, r));
    if q.len() == 1 {
        assert(r =~= p);
    } else {
        assert(r.last() == q.last());
    }
}

/// A set that no edge leaves contains every cell connected to its members.
pub proof fn lemma_closed_reach(adj: spec_fn(int, int) -> bool, s: spec_fn(int) -> bool, a: int, b: int)
    requires
        closed(adj, s),
        s(a),
        connected(adj, a, b),
    ensures
        s(b),
{
    let p = choose|p: Seq<int>| #[trigger] is_walk(adj, p) && p[0] == a && p.last() == b;
    lemma_closed_walk(adj, s, p);
}

proof fn lemma_closed_walk(adj: spec_fn(int, int) -> bool, s: spec_fn(int) -> bool, p: Seq<int>)
    requires
        closed(adj, s),
        is_walk(adj, p),
        s(p[0]),
    ensures
        s(p.last()),
    decreases p.len(),
{
    if p.len() > 1 {
        let q = p.drop_last();
        assert forall|i: int| 0 <= i < q.len() - 1 implies #[trigger] adj(q[i], q[i + 1]) by {
            assert(adj(p[i], p[i + 1]));
        }
        lemma_closed_walk(adj, s, q);
        let i = p.len() - 2;
        assert(adj(p[i], p[i + 1]));
        assert(q.last() == p[i]);
    }
}

/// Connected cells have the same component.
pub proof fn lemma_same_component(adj: spec_fn(int, int) -> bool, a: int, b: int)
    requires
        symmetric(adj),
        connected(adj, a, b),
    ensures
        component(adj, a) == component(adj, b),
{
    assert forall|x: int| component(adj, a).contains(x) <==> component(adj, b).contains(x) by {
        if connected(adj, a, x) {
            lemma_connected_sym(adj, a, b);
            lemma_connected_trans(adj, b, a, x);
        }
        if connected(adj, b, x) {
            lemma_connected_trans(adj, a, b, x);
        }
    }
    assert(component(adj, a) =~= component(adj, b));
}

/// Connectivity survives adding edges.
pub proof fn lemma_connected_mono(
    adj1: spec_fn(int, int) -> bool,
    adj2: spec_fn(int, int) -> bool,
    a: int,
    b: int,
)
    requires
        forall|u: int, v: int| #[trigger] adj1(u, v) ==> adj2(u, v),
        connected(adj1, a, b),
    ensures
        connected(adj2, a, b),
{
    let p = choose|p: Seq<int>| #[trigger] is_walk(adj1, p) && p[0] == a && p.last() == b;
    assert forall|i: int| 0 <= i < p.len() - 1 implies #[trigger] adj2(p[i], p[i + 1]) by {
        assert(adj1(p[i], p[i + 1]));
    }
    assert(is_walk(adj2, p));
}

} // verus!
