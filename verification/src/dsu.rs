//! Disjoint-set forests over cells `0..n`. A forest is modelled by the
//! representative of each element: `rep[i]` is the root reached by
//! following parents from `i`. Ghost ranks strictly increase along parent
//! links, which bounds every walk to a root.

use vstd::prelude::*;

verus! {

/// The parent array, ranks and representatives describe one forest:
/// parents stay in range, ranks grow toward the root, every element
/// shares its parent's representative, and representatives are roots.
pub open spec fn forest_wf(parent: Seq<u32>, rank: Seq<nat>, rep: Seq<u32>, bound: nat) -> bool {
    &&& parent.len() == rank.len()
    &&& parent.len() == rep.len()
    &&& parent.len() <= u32::MAX
    &&& forall|i: int| 0 <= i < parent.len() ==> (#[trigger] parent[i] as int) < parent.len()
    &&& forall|i: int| 0 <= i < parent.len() ==> (#[trigger] rep[i] as int) < parent.len()
    &&& forall|i: int| 0 <= i < parent.len() ==> #[trigger] rank[i] < bound
    &&& forall|i: int|
        0 <= i < parent.len() && #[trigger] parent[i] as int != i ==> rank[i] < rank[
            parent[i] as int
        ]
    &&& forall|i: int| 0 <= i < parent.len() ==> #[trigger] rep[i] == rep[parent[i] as int]
    &&& forall|i: int| 0 <= i < parent.len() && #[trigger] parent[i] as int == i ==> rep[i] == i
    &&& forall|i: int| 0 <= i < parent.len() ==> #[trigger] parent[rep[i] as int] == rep[i]
}

/// A non-root element ranks strictly below its representative.
pub proof fn lemma_rank_below_rep(parent: Seq<u32>, rank: Seq<nat>, rep: Seq<u32>, bound: nat, i: int)
    requires
        forest_wf(parent, rank, rep, bound),
        0 <= i < parent.len(),
        parent[i] as int != i,
    ensures
        rank[i] < rank[rep[i] as int],
    decreases bound - rank[i],
{
    let p = parent[i] as int;
    assert(rank[i] < rank[p]);
    assert(rank[p] < bound);
    if parent[p] as int == p {
        assert(rep[p] as int == p);
        assert(rep[i] == rep[p]);
    } else {
        lemma_rank_below_rep(parent, rank, rep, bound, p);
        assert(rep[i] == rep[p]);
    }
}

/// Linking root `rb` under root `ra` (distinct) keeps the forest well
/// formed, with every element of `rb`'s set now represented by `ra`.
pub proof fn lemma_link(
    parent: Seq<u32>,
    rank: Seq<nat>,
    rep: Seq<u32>,
    bound: nat,
    ra: int,
    rb: int,
) -> (r: (Seq<nat>, nat))
    requires
        forest_wf(parent, rank, rep, bound),
        0 <= ra < parent.len(),
        0 <= rb < parent.len(),
        ra != rb,
        parent[ra] as int == ra,
        parent[rb] as int == rb,
    ensures
        forest_wf(
            parent.update(rb, ra as u32),
            r.0,
            relink(rep, rb as u32, ra as u32),
            r.1,
        ),
{
    let nr = if rank[ra] > rank[rb] { rank[ra] } else { rank[rb] + 1 };
    let rank2 = rank.update(ra, nr);
    let bound2 = if bound > nr { bound } else { nr + 1 };
    let parent2 = parent.update(rb, ra as u32);
    let rep2 = relink(rep, rb as u32, ra as u32);
    assert(rep[ra] as int == ra);
    assert(rep[rb] as int == rb);
    assert forall|i: int| 0 <= i < parent2.len() && #[trigger] parent2[i] as int != i implies rank2[i]
        < rank2[parent2[i] as int] by {
        if i != rb {
            assert(parent2[i] == parent[i]);
        }
    }
    assert forall|i: int| 0 <= i < parent2.len() implies #[trigger] rep2[i] == rep2[parent2[i] as int] by {
        if i != rb {
            assert(parent2[i] == parent[i]);
            assert(rep[i] == rep[parent[i] as int]);
        }
    }
    assert forall|i: int| 0 <= i < parent2.len() && #[trigger] parent2[i] as int == i implies rep2[i]
        == i by {
        assert(parent2[i] == parent[i]);
    }
    assert forall|i: int| 0 <= i < parent2.len() implies #[trigger] parent2[rep2[i] as int]
        == rep2[i] by {
        if rep[i] as int == rb {
        } else {
            assert(parent[rep[i] as int] == rep[i]);
        }
    }
    assert forall|i: int| 0 <= i < parent2.len() implies #[trigger] rank2[i] < bound2 by {}
    (rank2, bound2)
}

/// Pointing `i` straight at its representative keeps the forest well
/// formed and every representative unchanged.
pub proof fn lemma_point_to_rep(parent: Seq<u32>, rank: Seq<nat>, rep: Seq<u32>, bound: nat, i: int)
    requires
        forest_wf(parent, rank, rep, bound),
        0 <= i < parent.len(),
    ensures
        forest_wf(parent.update(i, rep[i]), rank, rep, bound),
{
    let par = parent.update(i, rep[i]);
    if parent[i] as int != i {
        lemma_rank_below_rep(parent, rank, rep, bound, i);
    } else {
        assert(par =~= parent);
    }
    assert forall|k: int| 0 <= k < par.len() && #[trigger] par[k] as int != k implies rank[k]
        < rank[par[k] as int] by {
        if k != i {
            assert(par[k] == parent[k]);
        }
    }
    assert forall|k: int| 0 <= k < par.len() implies #[trigger] rep[k] == rep[par[k] as int] by {
        if k != i {
            assert(par[k] == parent[k]);
        } else {
            assert(parent[rep[i] as int] == rep[i]);
        }
    }
    assert forall|k: int| 0 <= k < par.len() && #[trigger] par[k] as int == k implies rep[k] == k by {
        if k != i {
            assert(par[k] == parent[k]);
        }
    }
    assert forall|k: int| 0 <= k < par.len() implies #[trigger] par[rep[k] as int] == rep[k] by {
        assert(parent[rep[k] as int] == rep[k]);
        if rep[k] as int == i {
            assert(rep[i] as int == i);
        }
    }
}

/// Pointing `i` at its grandparent (path halving) keeps the forest well
/// formed and every representative unchanged.
pub proof fn lemma_halve(parent: Seq<u32>, rank: Seq<nat>, rep: Seq<u32>, bound: nat, i: int)
    requires
        forest_wf(parent, rank, rep, bound),
        0 <= i < parent.len(),
    ensures
        forest_wf(parent.update(i, parent[parent[i] as int]), rank, rep, bound),
{
    let p = parent[i] as int;
    let g = parent[p];
    let par = parent.update(i, g);
    if p == i || g as int == p {
        assert(par =~= parent);
    } else {
        assert(rank[i] < rank[p]);
        assert(rank[p] < rank[g as int]);
        assert forall|k: int| 0 <= k < par.len() && #[trigger] par[k] as int != k implies rank[k]
            < rank[par[k] as int] by {
            if k != i {
                assert(par[k] == parent[k]);
            }
        }
        assert forall|k: int| 0 <= k < par.len() implies #[trigger] rep[k] == rep[par[k] as int] by {
            if k != i {
                assert(par[k] == parent[k]);
            } else {
                assert(rep[i] == rep[p]);
                assert(rep[p] == rep[g as int]);
            }
        }
        assert forall|k: int| 0 <= k < par.len() && #[trigger] par[k] as int == k implies rep[k] == k by {
            if k != i {
                assert(par[k] == parent[k]);
            }
        }
        assert forall|k: int| 0 <= k < par.len() implies #[trigger] par[rep[k] as int] == rep[k] by {
            assert(parent[rep[k] as int] == rep[k]);
            if rep[k] as int == i {
                assert(parent[i] as int == i);
            }
        }
    }
}

/// Representatives after the set of `from` is merged into `to`.
pub open spec fn relink(rep: Seq<u32>, from: u32, to: u32) -> Seq<u32> {
    Seq::new(rep.len(), |x: int| if rep[x] == from { to } else { rep[x] })
}

/// A disjoint-set forest with full path compression.
pub struct Dsu {
    parent: Vec<u32>,
    rank: Ghost<Seq<nat>>,
    rep: Ghost<Seq<u32>>,
    bound: Ghost<nat>,
}

impl View for Dsu {
    type V = Seq<u32>;

    /// The representative of each element.
    closed spec fn view(&self) -> Seq<u32> {
        self.rep@
    }
}

impl Dsu {
    pub closed spec fn wf(&self) -> bool {
        forest_wf(self.parent@, self.rank@, self.rep@, self.bound@)
    }

    /// Representatives are elements, and represent themselves.
    pub proof fn lemma_reps(&self)
        requires
            self.wf(),
        ensures
            forall|i: int|
                0 <= i < self@.len() ==> (#[trigger] self@[i] as int) < self@.len() && self@[self@[i] as int]
                    == self@[i],
    {
        assert forall|i: int| 0 <= i < self@.len() implies (#[trigger] self@[i] as int) < self@.len()
            && self@[self@[i] as int] == self@[i] by {
            assert(self.parent@[self.rep@[i] as int] == self.rep@[i]);
        }
    }

    /// How far `i` can still climb before the rank bound.
    pub closed spec fn climb(&self, i: int) -> int {
        self.bound@ - self.rank@[i]
    }

    /// `n` singleton sets.
    pub fn new(n: usize) -> (d: Dsu)
        requires
            n <= u32::MAX,
        ensures
            d.wf(),
            d@ == Seq::new(n as nat, |i: int| i as u32),
    {
        let mut parent: Vec<u32> = Vec::new();
        let mut i: usize = 0;
        while i < n
            invariant
                i <= n,
                n <= u32::MAX,
                parent@ == Seq::new(i as nat, |k: int| k as u32),
            decreases n - i,
        {
            parent.push(i as u32);
            i = i + 1;
        }
        let ghost rep = Seq::new(n as nat, |k: int| k as u32);
        let ghost rank = Seq::new(n as nat, |k: int| 0nat);
        let d = Dsu { parent, rank: Ghost(rank), rep: Ghost(rep), bound: Ghost(1nat) };
        assert(forest_wf(d.parent@, rank, rep, 1nat));
        d
    }

    /// The representative of `i`'s set; compresses the path walked.
    pub fn find(&mut self, i: u32) -> (r: u32)
        requires
            old(self).wf(),
            (i as int) < old(self)@.len(),
        ensures
            final(self).wf(),
            final(self)@ == old(self)@,
            r == old(self)@[i as int],
        decreases old(self).climb(i as int),
    {
        let p = self.parent[i as usize];
        if p != i {
            proof {
                assert(self.rank@[i as int] < self.rank@[p as int]);
                assert(self.rank@[p as int] < self.bound@);
            }
            let r = self.find(p);
            proof {
                assert(self.rep@[i as int] == self.rep@[p as int]);
                lemma_point_to_rep(self.parent@, self.rank@, self.rep@, self.bound@, i as int);
            }
            self.parent.set(i as usize, r);
            r
        } else {
            i
        }
    }

    /// Merge the sets of `a` and `b`: every member of `b`'s set takes
    /// `a`'s representative.
    pub fn union(&mut self, a: u32, b: u32)
        requires
            old(self).wf(),
            (a as int) < old(self)@.len(),
            (b as int) < old(self)@.len(),
        ensures
            final(self).wf(),
            final(self)@ == relink(old(self)@, old(self)@[b as int], old(self)@[a as int]),
    {
        let ra = self.find(a);
        let rb = self.find(b);
        if ra != rb {
            proof {
                let (rank2, bound2) = lemma_link(
                    self.parent@,
                    self.rank@,
                    self.rep@,
                    self.bound@,
                    ra as int,
                    rb as int,
                );
                self.rank = Ghost(rank2);
                self.bound = Ghost(bound2);
                self.rep = Ghost(relink(self.rep@, rb, ra));
            }
            self.parent.set(rb as usize, ra);
        } else {
            proof {
                assert(self.rep@ =~= relink(self.rep@, rb, ra));
            }
        }
    }
}

/// After merging the sets of `a` and `b`, the two share a representative,
/// and elements of every other set keep theirs.
pub proof fn lemma_union_joins(rep: Seq<u32>, a: int, b: int)
    requires
        0 <= a < rep.len(),
        0 <= b < rep.len(),
    ensures
        relink(rep, rep[b], rep[a])[a] == relink(rep, rep[b], rep[a])[b],
        forall|x: int|
            0 <= x < rep.len() && rep[x] != rep[a] && rep[x] != rep[b] ==> #[trigger] relink(rep, rep[b], rep[a])[x]
                == rep[x],
{
}

} // verus!
