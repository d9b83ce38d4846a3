//! Pass sites: Morse saddles of the height field found by the
//! superlevel-set sweep. Land cells are visited from the highest down
//! (equal heights by ascending cell index); a cell that touches two or
//! more components of the land above it is a saddle, paired with the
//! peak of the second-highest of those components. Its persistence is
//! that peak's height above the saddle. The Peucker–Douglas 8-ring test
//! is recorded per site as a diagnostic.

use vstd::prelude::*;

use crate::connect::{
    closed, connected, lemma_closed_reach, lemma_connected_mono, lemma_connected_refl,
    lemma_connected_step, lemma_connected_sym, lemma_connected_trans, symmetric,
};
use crate::dsu::{forest_wf, lemma_halve, lemma_link, relink};
use crate::flow::lemma_distinct_cells;
use crate::grid::{
    adjacent8, grid_ok, grid_part, on_grid, lemma_adjacent_in_neighbors, lemma_cell_coords, lemma_index_coords, neighbors,
    neighbors8,
};
use crate::order::{sort_u64, sorted_u64};

verus! {

/// The total order of the sweep: `a` is higher than `b` when its height
/// is greater, or the heights are equal and `a` has the smaller index.
pub open spec fn higher(hts: Seq<i32>, a: int, b: int) -> bool {
    hts[a] > hts[b] || (hts[a] == hts[b] && a < b)
}

/// Whether cell `a` is higher than cell `b` in the sweep order.
pub fn is_higher(heights_cm: &[i32], a: u32, b: u32) -> (r: bool)
    requires
        (a as int) < heights_cm@.len(),
        (b as int) < heights_cm@.len(),
    ensures
        r == higher(heights_cm@, a as int, b as int),
{
    let ha = heights_cm[a as usize];
    let hb = heights_cm[b as usize];
    ha > hb || (ha == hb && a < b)
}

/// The sweep key of cell `x`: ascending keys visit cells from the
/// highest down, equal heights by ascending index.
pub open spec fn sweep_key(h: i32, x: int) -> int {
    (0x7FFF_FFFF - h) * 0x1_0000_0000 + x
}

proof fn lemma_sweep_key(h: i32, x: int)
    requires
        0 <= x <= u32::MAX,
    ensures
        0 <= sweep_key(h, x) <= u64::MAX,
        sweep_key(h, x) % 0x1_0000_0000 == x,
{
    assert(0 <= sweep_key(h, x) <= u64::MAX) by (nonlinear_arith)
        requires
            0 <= x <= u32::MAX,
            -0x8000_0000 <= h <= 0x7FFF_FFFF,
    ;
    vstd::arithmetic::div_mod::lemma_fundamental_div_mod_converse(
        sweep_key(h, x),
        0x1_0000_0000,
        0x7FFF_FFFF - h,
        x,
    );
}

proof fn lemma_sweep_key_order(ha: i32, a: int, hb: i32, b: int)
    requires
        0 <= a <= u32::MAX,
        0 <= b <= u32::MAX,
    ensures
        sweep_key(ha, a) < sweep_key(hb, b) <==> (ha > hb || (ha == hb && a < b)),
{
    if ha > hb {
        assert((0x7FFF_FFFF - hb) * 0x1_0000_0000 >= (0x7FFF_FFFF - ha) * 0x1_0000_0000 + 0x1_0000_0000)
            by (nonlinear_arith)
            requires
                ha > hb,
        ;
    } else if ha < hb {
        assert((0x7FFF_FFFF - ha) * 0x1_0000_0000 >= (0x7FFF_FFFF - hb) * 0x1_0000_0000 + 0x1_0000_0000)
            by (nonlinear_arith)
            requires
                ha < hb,
        ;
    }
}

/// The land cells in sweep order: every land cell once, each higher than
/// all that follow it.
pub fn sweep_order(heights_cm: &[i32], land: &[bool]) -> (order: Vec<u32>)
    requires
        heights_cm@.len() == land@.len(),
        land@.len() <= u32::MAX,
    ensures
        order@.no_duplicates(),
        forall|j: int| 0 <= j < order@.len() ==> (#[trigger] order@[j] as int) < land@.len(),
        forall|j: int| 0 <= j < order@.len() ==> land@[#[trigger] order@[j] as int],
        forall|x: int| 0 <= x < land@.len() && #[trigger] land@[x] ==> order@.contains(x as u32),
        forall|i: int, j: int|
            0 <= i < j < order@.len() ==> higher(heights_cm@, order@[i] as int, order@[j] as int),
{
    let n = land.len();
    let ghost hts = heights_cm@;
    let mut keys: Vec<u64> = Vec::new();
    let mut i: usize = 0;
    while i < n
        invariant
            i <= n,
            n == land@.len(),
            n <= u32::MAX,
            hts == heights_cm@,
            hts.len() == n,
            forall|j: int| 0 <= j < keys@.len() ==> {
                let x = (#[trigger] keys@[j]) % 0x1_0000_0000;
                &&& 0 <= x < i
                &&& land@[x as int]
                &&& keys@[j] == sweep_key(hts[x as int], x as int)
            },
            forall|x: int| 0 <= x < i && #[trigger] land@[x] ==> keys@.contains(sweep_key(hts[x], x) as u64),
            keys@.no_duplicates(),
        decreases n - i,
    {
        if land[i] {
            let h = heights_cm[i];
            proof {
                lemma_sweep_key(h, i as int);
            }
            let key: u64 = ((0x7FFF_FFFFi64 - h as i64) as u64) * 0x1_0000_0000u64 + i as u64;
            let ghost k0 = keys@;
            keys.push(key);
            proof {
                assert forall|j: int| 0 <= j < keys@.len() implies {
                    let x = (#[trigger] keys@[j]) % 0x1_0000_0000;
                    &&& 0 <= x < i + 1
                    &&& land@[x as int]
                    &&& keys@[j] == sweep_key(hts[x as int], x as int)
                } by {
                    if j < k0.len() {
                        assert(keys@[j] == k0[j]);
                    }
                }
                assert forall|x: int| 0 <= x < i + 1 && #[trigger] land@[x] implies keys@.contains(
                    sweep_key(hts[x], x) as u64,
                ) by {
                    if x < i {
                        let j = choose|j: int| 0 <= j < k0.len() && k0[j] == sweep_key(hts[x], x) as u64;
                        assert(keys@[j] == k0[j]);
                    } else {
                        assert(keys@[k0.len() as int] == key);
                    }
                }
                assert forall|a: int, b: int| 0 <= a < keys@.len() && 0 <= b < keys@.len() && a != b implies keys@[a] != keys@[b] by {
                    if a < k0.len() && b < k0.len() {
                        assert(keys@[a] == k0[a] && keys@[b] == k0[b]);
                    } else if a < k0.len() {
                        assert(keys@[a] == k0[a]);
                        assert(keys@[a] % 0x1_0000_0000 < i);
                    } else {
                        assert(keys@[b] == k0[b]);
                        assert(keys@[b] % 0x1_0000_0000 < i);
                    }
                }
            }
        }
        i = i + 1;
    }
    let ghost orig = keys@;
    sort_u64(&mut keys);
    proof {
        lemma_permuted_distinct(orig, keys@);
    }
    let mut order: Vec<u32> = Vec::new();
    let mut k: usize = 0;
    while k < keys.len()
        invariant
            k <= keys@.len(),
            n == land@.len(),
            n <= u32::MAX,
            hts == heights_cm@,
            hts.len() == n,
            forall|x: u64| keys@.contains(x) <==> orig.contains(x),
            forall|j: int| 0 <= j < orig.len() ==> {
                let x = (#[trigger] orig[j]) % 0x1_0000_0000;
                &&& 0 <= x < n
                &&& land@[x as int]
                &&& orig[j] == sweep_key(hts[x as int], x as int)
            },
            order@.len() == k,
            forall|j: int| 0 <= j < k ==> (#[trigger] order@[j]) as int == keys@[j] % 0x1_0000_0000,
        decreases keys@.len() - k,
    {
        proof {
            assert(keys@.contains(keys@[k as int]));
            assert(orig.contains(keys@[k as int]));
        }
        order.push((keys[k] % 0x1_0000_0000u64) as u32);
        k = k + 1;
    }
    proof {
        lemma_order_from_keys(hts, land@, orig, keys@, order@);
    }
    order
}

/// A sorted permutation of distinct keys has no repeated key and holds
/// exactly the input keys.
pub proof fn lemma_permuted_distinct(orig: Seq<u64>, keys: Seq<u64>)
    requires
        orig.no_duplicates(),
        keys.to_multiset() == orig.to_multiset(),
    ensures
        keys.no_duplicates(),
        keys.len() == orig.len(),
        forall|x: u64| keys.contains(x) <==> orig.contains(x),
{
    orig.lemma_multiset_has_no_duplicates();
    keys.to_multiset_ensures();
    orig.to_multiset_ensures();
    assert forall|x: u64| keys.to_multiset().contains(x) implies keys.to_multiset().count(x) == 1 by {}
    keys.lemma_multiset_has_no_duplicates_conv();
    assert forall|x: u64| keys.contains(x) <==> orig.contains(x) by {
        assert(keys.to_multiset().count(x) == orig.to_multiset().count(x));
        if keys.contains(x) {
            assert(keys.to_multiset().count(x) > 0);
        }
        if orig.contains(x) {
            assert(orig.to_multiset().count(x) > 0);
        }
    }
}

proof fn lemma_order_from_keys(
    hts: Seq<i32>,
    land: Seq<bool>,
    orig: Seq<u64>,
    keys: Seq<u64>,
    order: Seq<u32>,
)
    requires
        hts.len() == land.len(),
        land.len() <= u32::MAX,
        keys.no_duplicates(),
        sorted_u64(keys),
        forall|x: u64| keys.contains(x) <==> orig.contains(x),
        forall|j: int| 0 <= j < orig.len() ==> {
            let x = (#[trigger] orig[j]) % 0x1_0000_0000;
            &&& 0 <= x < land.len()
            &&& land[x as int]
            &&& orig[j] == sweep_key(hts[x as int], x as int)
        },
        forall|x: int| 0 <= x < land.len() && #[trigger] land[x] ==> orig.contains(sweep_key(hts[x], x) as u64),
        order.len() == keys.len(),
        forall|j: int| 0 <= j < order.len() ==> (#[trigger] order[j]) as int == keys[j] % 0x1_0000_0000,
    ensures
        order.no_duplicates(),
        forall|j: int| 0 <= j < order.len() ==> (#[trigger] order[j] as int) < land.len(),
        forall|j: int| 0 <= j < order.len() ==> land[#[trigger] order[j] as int],
        forall|x: int| 0 <= x < land.len() && #[trigger] land[x] ==> order.contains(x as u32),
        forall|i: int, j: int| 0 <= i < j < order.len() ==> higher(hts, order[i] as int, order[j] as int),
{
    assert forall|j: int| 0 <= j < order.len() implies keys[j] == sweep_key(hts[order[j] as int], order[j] as int)
        && (#[trigger] order[j] as int) < land.len() && land[order[j] as int] by {
        assert(keys.contains(keys[j]));
        assert(orig.contains(keys[j]));
        let i = choose|i: int| 0 <= i < orig.len() && orig[i] == keys[j];
    }
    assert forall|i: int, j: int| 0 <= i < j < order.len() implies higher(hts, order[i] as int, order[j] as int) by {
        assert(keys[i] == sweep_key(hts[order[i] as int], order[i] as int));
        assert(keys[j] == sweep_key(hts[order[j] as int], order[j] as int));
        assert(keys[i] != keys[j]);
        lemma_sweep_key_order(hts[order[i] as int], order[i] as int, hts[order[j] as int], order[j] as int);
    }
    assert forall|a: int, b: int| 0 <= a < order.len() && 0 <= b < order.len() && a != b implies order[a] != order[b] by {
        if a < b {
            assert(higher(hts, order[a] as int, order[b] as int));
        } else {
            assert(higher(hts, order[b] as int, order[a] as int));
        }
    }
    assert forall|x: int| 0 <= x < land.len() && #[trigger] land[x] implies order.contains(x as u32) by {
        let key = sweep_key(hts[x], x) as u64;
        lemma_sweep_key(hts[x], x);
        assert(orig.contains(key));
        assert(keys.contains(key));
        let j = choose|j: int| 0 <= j < keys.len() && keys[j] == key;
        assert(order[j] as int == x);
    }
}

/// `x` is a land cell above `c` in the sweep.
pub open spec fn above(hts: Seq<i32>, land: Seq<bool>, c: int, x: int) -> bool {
    0 <= x < land.len() && land[x] && higher(hts, x, c)
}

/// D8 adjacency among the land above `c`: the superlevel set `c` meets.
pub open spec fn above_graph(w: u32, h: u32, hts: Seq<i32>, land: Seq<bool>, c: int) -> spec_fn(
    int,
    int,
) -> bool {
    |a: int, b: int|
        above(hts, land, c, a) && above(hts, land, c, b) && adjacent8(w as int, h as int, a, b)
}

/// `nb` is a D8 neighbour of `c` in the land above it.
pub open spec fn upper_neighbor(w: u32, h: u32, hts: Seq<i32>, land: Seq<bool>, c: int, nb: int) -> bool {
    adjacent8(w as int, h as int, c, nb) && above(hts, land, c, nb)
}

/// `t` is the highest cell of the component of `nb` in the land above `c`.
pub open spec fn is_top(w: u32, h: u32, hts: Seq<i32>, land: Seq<bool>, c: int, nb: int, t: int) -> bool {
    &&& connected(above_graph(w, h, hts, land, c), nb, t)
    &&& forall|x: int|
        #[trigger] connected(above_graph(w, h, hts, land, c), nb, x) ==> x == t || higher(hts, t, x)
}

/// `t` is the peak of one of the components of the land above `c` that
/// touch `c`.
pub open spec fn top_among(w: u32, h: u32, hts: Seq<i32>, land: Seq<bool>, c: int, t: int) -> bool {
    exists|nb: int| upper_neighbor(w, h, hts, land, c, nb) && #[trigger] is_top(w, h, hts, land, c, nb, t)
}

/// `c` joins two or more components of the land above it.
pub open spec fn is_saddle(w: u32, h: u32, hts: Seq<i32>, land: Seq<bool>, c: int) -> bool {
    exists|a: int, b: int|
        upper_neighbor(w, h, hts, land, c, a) && upper_neighbor(w, h, hts, land, c, b)
            && !#[trigger] connected(above_graph(w, h, hts, land, c), a, b)
}

/// `p` is the peak paired with saddle `c`: the second highest of the
/// peaks of the components `c` joins (the highest component survives the
/// merge; `p`'s is the most persistent of those that die).
pub open spec fn paired_peak(w: u32, h: u32, hts: Seq<i32>, land: Seq<bool>, c: int, p: int) -> bool {
    exists|t: int|
        #[trigger] top_among(w, h, hts, land, c, t) && top_among(w, h, hts, land, c, p) && higher(
            hts,
            t,
            p,
        ) && forall|u: int| #[trigger] top_among(w, h, hts, land, c, u) ==> u == t || u == p || higher(hts, p, u)
}

/// D8 adjacency among the cells swept so far.
pub open spec fn swept_graph(w: u32, h: u32, swept: Seq<bool>) -> spec_fn(int, int) -> bool {
    |a: int, b: int|
        0 <= a < swept.len() && 0 <= b < swept.len() && swept[a] && swept[b] && adjacent8(
            w as int,
            h as int,
            a,
            b,
        )
}

/// The union-find forest describes the swept land: a class is exactly a
/// connected component of the swept cells, and its representative is its
/// highest cell.
pub open spec fn sweep_inv(w: u32, h: u32, hts: Seq<i32>, swept: Seq<bool>, rep: Seq<u32>) -> bool {
    &&& forall|z: int| 0 <= z < swept.len() && #[trigger] rep[z] as int != z ==> swept[z] && swept[rep[z] as int]
    &&& forall|a: int, b: int|
        #![trigger rep[a], rep[b]]
        0 <= a < swept.len() && 0 <= b < swept.len() && swept[a] && swept[b] && rep[a] == rep[b]
            ==> connected(swept_graph(w, h, swept), a, b)
    &&& forall|a: int, b: int|
        #[trigger] adjacent8(w as int, h as int, a, b) && 0 <= a < swept.len() && 0 <= b < swept.len()
            && swept[a] && swept[b] ==> rep[a] == rep[b]
    &&& forall|y: int|
        0 <= y < swept.len() && swept[y] ==> swept[#[trigger] rep[y] as int] && (y == rep[y] as int
            || higher(hts, rep[y] as int, y))
}

proof fn lemma_swept_graph_symmetric(w: u32, h: u32, swept: Seq<bool>)
    ensures
        symmetric(swept_graph(w, h, swept)),
{
}

/// Swept cells connected to `a` share its representative.
proof fn lemma_swept_class(w: u32, h: u32, hts: Seq<i32>, swept: Seq<bool>, rep: Seq<u32>, a: int, b: int)
    requires
        sweep_inv(w, h, hts, swept, rep),
        0 <= a < swept.len(),
        swept[a],
        connected(swept_graph(w, h, swept), a, b),
    ensures
        0 <= b < swept.len(),
        swept[b],
        rep[b] == rep[a],
{
    let g = swept_graph(w, h, swept);
    let s = |y: int| 0 <= y < swept.len() && swept[y] && rep[y] == rep[a];
    assert forall|u: int, v: int| s(u) && #[trigger] g(u, v) implies s(v) by {
        assert(adjacent8(w as int, h as int, u, v));
    }
    lemma_closed_reach(g, s, a, b);
}

/// Representatives after sweeping `c`: `c` and every class it touches
/// join the class of `surv`; with no class touched, `c` stays alone.
pub open spec fn step_rep(rep: Seq<u32>, c: int, roots: Seq<u32>, surv: u32) -> Seq<u32> {
    if roots.len() == 0 {
        rep
    } else {
        Seq::new(rep.len(), |x: int| if x == c || roots.contains(rep[x]) { surv } else { rep[x] })
    }
}

/// The facts about one sweep step that the invariant needs: the roots
/// are the classes of the swept neighbours of `c`, each with a witness
/// neighbour, and `surv` is the highest of them.
pub open spec fn step_ok(
    w: u32,
    h: u32,
    hts: Seq<i32>,
    swept: Seq<bool>,
    rep: Seq<u32>,
    c: int,
    roots: Seq<u32>,
    wit: Seq<int>,
    surv: u32,
) -> bool {
    let n = swept.len();
    &&& n <= u32::MAX
    &&& rep.len() == n
    &&& hts.len() == n
    &&& 0 <= c < n
    &&& !swept[c]
    &&& forall|z: int| 0 <= z < n ==> (#[trigger] rep[z] as int) < n && rep[rep[z] as int] == rep[z]
    &&& forall|x: int| 0 <= x < n && #[trigger] swept[x] ==> higher(hts, x, c)
    &&& roots.no_duplicates()
    &&& wit.len() == roots.len()
    &&& forall|j: int|
        0 <= j < roots.len() ==> (#[trigger] roots[j] as int) < n && swept[roots[j] as int] && rep[roots[j] as int]
            == roots[j]
    &&& forall|j: int|
        0 <= j < roots.len() ==> adjacent8(w as int, h as int, c, #[trigger] wit[j]) && 0 <= wit[j] < n
            && swept[wit[j]] && rep[wit[j]] == roots[j]
    &&& forall|nb: int|
        #[trigger] adjacent8(w as int, h as int, c, nb) && 0 <= nb < n && swept[nb] ==> roots.contains(rep[nb])
    &&& roots.len() > 0 ==> roots.contains(surv)
    &&& forall|j: int| 0 <= j < roots.len() ==> #[trigger] roots[j] == surv || higher(hts, surv as int, roots[j] as int)
}

proof fn lemma_sweep_step(
    w: u32,
    h: u32,
    hts: Seq<i32>,
    swept: Seq<bool>,
    rep: Seq<u32>,
    c: int,
    roots: Seq<u32>,
    wit: Seq<int>,
    surv: u32,
)
    requires
        sweep_inv(w, h, hts, swept, rep),
        step_ok(w, h, hts, swept, rep, c, roots, wit, surv),
    ensures
        sweep_inv(w, h, hts, swept.update(c, true), step_rep(rep, c, roots, surv)),
{
    let n = swept.len();
    let sw2 = swept.update(c, true);
    let rep2 = step_rep(rep, c, roots, surv);
    let g = swept_graph(w, h, swept);
    let g2 = swept_graph(w, h, sw2);
    assert(rep[c] as int == c);
    assert forall|u: int, v: int| #[trigger] g(u, v) implies g2(u, v) by {}
    lemma_swept_graph_symmetric(w, h, sw2);
    if roots.len() == 0 {
        assert forall|a: int, b: int|
            #![trigger rep2[a], rep2[b]]
            0 <= a < n && 0 <= b < n && sw2[a] && sw2[b] && rep2[a] == rep2[b] implies connected(g2, a, b) by {
            if a == c || b == c {
                if a != b {
                    if a == c {
                        assert(rep[b] as int != b);
                    } else {
                        assert(rep[a] as int != a);
                    }
                }
                lemma_connected_refl(g2, a);
            } else {
                assert(connected(g, a, b));
                lemma_connected_mono(g, g2, a, b);
            }
        }
        assert forall|a: int, b: int|
            #[trigger] adjacent8(w as int, h as int, a, b) && 0 <= a < n && 0 <= b < n && sw2[a] && sw2[b] implies rep2[a] == rep2[b] by {
            if a == c {
                assert(roots.contains(rep[b]));
            } else if b == c {
                assert(adjacent8(w as int, h as int, b, a));
                assert(roots.contains(rep[a]));
            }
        }
    } else {
        // Every cell that joins the survivor's class is connected to `c`.
        assert forall|x: int| 0 <= x < n && sw2[x] && (x == c || roots.contains(rep[x])) implies connected(g2, x, c) by {
            if x == c {
                lemma_connected_refl(g2, c);
            } else {
                let j = choose|j: int| 0 <= j < roots.len() && roots[j] == rep[x];
                let nb = wit[j];
                assert(adjacent8(w as int, h as int, c, nb));
                assert(rep[x] == rep[nb]);
                assert(connected(g, x, nb));
                lemma_connected_mono(g, g2, x, nb);
                assert(adjacent8(w as int, h as int, nb, c));
                assert(g2(nb, c));
                lemma_connected_step(g2, x, nb, c);
            }
        }
        assert forall|z: int| 0 <= z < n && #[trigger] rep2[z] as int != z implies sw2[z] && sw2[rep2[z] as int] by {
            if z != c && !roots.contains(rep[z]) {
                assert(rep2[z] == rep[z]);
            } else if z != c {
                let j = choose|j: int| 0 <= j < roots.len() && roots[j] == rep[z];
                if rep[z] as int == z {
                    assert(swept[roots[j] as int]);
                }
            }
        }
        assert forall|a: int, b: int|
            #![trigger rep2[a], rep2[b]]
            0 <= a < n && 0 <= b < n && sw2[a] && sw2[b] && rep2[a] == rep2[b] implies connected(g2, a, b) by {
            let ma = a == c || roots.contains(rep[a]);
            let mb = b == c || roots.contains(rep[b]);
            if ma && mb {
                assert(connected(g2, a, c));
                assert(connected(g2, b, c));
                lemma_connected_sym(g2, b, c);
                lemma_connected_trans(g2, a, c, b);
            } else if !ma && !mb {
                assert(rep[a] == rep[b]);
                assert(connected(g, a, b));
                lemma_connected_mono(g, g2, a, b);
            } else if ma {
                assert(rep2[b] == rep[b]);
                assert(!roots.contains(rep[b]));
            } else {
                assert(rep2[a] == rep[a]);
                assert(!roots.contains(rep[a]));
            }
        }
        assert forall|a: int, b: int|
            #[trigger] adjacent8(w as int, h as int, a, b) && 0 <= a < n && 0 <= b < n && sw2[a] && sw2[b] implies rep2[a] == rep2[b] by {
            if a == c {
                assert(roots.contains(rep[b]));
            } else if b == c {
                assert(adjacent8(w as int, h as int, b, a));
                assert(roots.contains(rep[a]));
            } else {
                assert(rep[a] == rep[b]);
            }
        }
        assert forall|y: int| 0 <= y < n && sw2[y] implies sw2[#[trigger] rep2[y] as int] && (y == rep2[y] as int
            || higher(hts, rep2[y] as int, y)) by {
            if y == c {
                let j = choose|j: int| 0 <= j < roots.len() && roots[j] == surv;
                assert(swept[surv as int]);
            } else if roots.contains(rep[y]) {
                let j = choose|j: int| 0 <= j < roots.len() && roots[j] == rep[y];
                assert(roots[j] == surv || higher(hts, surv as int, roots[j] as int));
                let j2 = choose|j: int| 0 <= j < roots.len() && roots[j] == surv;
                assert(swept[roots[j2] as int]);
            }
        }
    }
}

/// When the swept cells are exactly the land above `c`, the classes of
/// `c`'s swept neighbours are the components `c` touches and their
/// representatives are those components' peaks.
proof fn lemma_site_spec(
    w: u32,
    h: u32,
    hts: Seq<i32>,
    land: Seq<bool>,
    swept: Seq<bool>,
    rep: Seq<u32>,
    c: int,
    roots: Seq<u32>,
    wit: Seq<int>,
    surv: u32,
)
    requires
        sweep_inv(w, h, hts, swept, rep),
        step_ok(w, h, hts, swept, rep, c, roots, wit, surv),
        land.len() == swept.len(),
        forall|x: int| 0 <= x < swept.len() ==> (#[trigger] swept[x] <==> above(hts, land, c, x)),
    ensures
        is_saddle(w, h, hts, land, c) <==> roots.len() >= 2,
        forall|t: int|
            #[trigger] top_among(w, h, hts, land, c, t) <==> (0 <= t < swept.len() && roots.contains(t as u32)),
{
    let n = swept.len();
    let ga = above_graph(w, h, hts, land, c);
    let gs = swept_graph(w, h, swept);
    assert forall|u: int, v: int| #[trigger] ga(u, v) implies gs(u, v) by {}
    assert forall|u: int, v: int| #[trigger] gs(u, v) implies ga(u, v) by {
        assert(swept[u] && swept[v]);
    }
    // The representative of an upper neighbour is its component's top.
    assert forall|nb: int, t: int| upper_neighbor(w, h, hts, land, c, nb) implies (#[trigger] is_top(w, h, hts, land, c, nb, t)
        <==> t == rep[nb] as int) by {
        assert(swept[nb]);
        let r = rep[nb] as int;
        assert(rep[r] == rep[nb]);
        assert(swept[r]);
        assert(connected(gs, nb, r));
        lemma_connected_mono(gs, ga, nb, r);
        assert forall|x: int| #[trigger] connected(ga, nb, x) implies x == r || higher(hts, r, x) by {
            lemma_connected_mono(ga, gs, nb, x);
            lemma_swept_class(w, h, hts, swept, rep, nb, x);
        }
        assert(is_top(w, h, hts, land, c, nb, r));
        if is_top(w, h, hts, land, c, nb, t) {
            assert(connected(ga, nb, t));
            assert(t == r || higher(hts, r, t));
            assert(r == t || higher(hts, t, r));
        }
    }
    assert forall|t: int| #[trigger] top_among(w, h, hts, land, c, t) <==> (0 <= t < n && roots.contains(t as u32)) by {
        if top_among(w, h, hts, land, c, t) {
            let nb = choose|nb: int| upper_neighbor(w, h, hts, land, c, nb) && #[trigger] is_top(w, h, hts, land, c, nb, t);
            assert(t == rep[nb] as int);
            assert(adjacent8(w as int, h as int, c, nb));
            assert(roots.contains(rep[nb]));
        }
        if 0 <= t < n && roots.contains(t as u32) {
            let j = choose|j: int| 0 <= j < roots.len() && roots[j] == t as u32;
            let nb = wit[j];
            assert(upper_neighbor(w, h, hts, land, c, nb));
            assert(rep[nb] as int == t);
            assert(is_top(w, h, hts, land, c, nb, t));
        }
    }
    if roots.len() >= 2 {
        let a = wit[0];
        let b = wit[1];
        assert(upper_neighbor(w, h, hts, land, c, a));
        assert(upper_neighbor(w, h, hts, land, c, b));
        if connected(ga, a, b) {
            lemma_connected_mono(ga, gs, a, b);
            lemma_swept_class(w, h, hts, swept, rep, a, b);
            assert(roots[0] != roots[1]);
        }
        assert(is_saddle(w, h, hts, land, c));
    }
    if is_saddle(w, h, hts, land, c) {
        let (a, b) = choose|a: int, b: int|
            upper_neighbor(w, h, hts, land, c, a) && upper_neighbor(w, h, hts, land, c, b)
                && !#[trigger] connected(ga, a, b);
        assert(adjacent8(w as int, h as int, c, a));
        assert(adjacent8(w as int, h as int, c, b));
        assert(roots.contains(rep[a]));
        assert(roots.contains(rep[b]));
        if roots.len() < 2 {
            let ja = choose|j: int| 0 <= j < roots.len() && roots[j] == rep[a];
            let jb = choose|j: int| 0 <= j < roots.len() && roots[j] == rep[b];
            assert(ja == 0 && jb == 0);
            assert(rep[a] == rep[b]);
            assert(connected(gs, a, b));
            lemma_connected_mono(gs, ga, a, b);
        }
    }
}

/// The 8-ring around a cell, clockwise from the north-west corner.
pub open spec fn ring_offset(k: int) -> (int, int) {
    if k == 0 {
        (-1, -1)
    } else if k == 1 {
        (0, -1)
    } else if k == 2 {
        (1, -1)
    } else if k == 3 {
        (1, 0)
    } else if k == 4 {
        (1, 1)
    } else if k == 5 {
        (0, 1)
    } else if k == 6 {
        (-1, 1)
    } else {
        (-1, 0)
    }
}

/// The ring neighbour at position `k` exists and is higher than `c`;
/// out-of-grid neighbours count as lower.
pub open spec fn ring_sign(w: u32, h: u32, hts: Seq<i32>, c: int, k: int) -> bool {
    let x = c % (w as int) + ring_offset(k).0;
    let y = c / (w as int) + ring_offset(k).1;
    0 <= x < w && 0 <= y < h && higher(hts, y * w + x, c)
}

/// Sign changes between ring positions `k` and `k + 1` (cyclically) for
/// `k < m`.
pub open spec fn ring_changes(w: u32, h: u32, hts: Seq<i32>, c: int, m: int) -> nat
    decreases m,
{
    if m <= 0 {
        0
    } else {
        ring_changes(w, h, hts, c, m - 1) + if ring_sign(w, h, hts, c, m - 1) != ring_sign(
            w,
            h,
            hts,
            c,
            m % 8,
        ) {
            1nat
        } else {
            0nat
        }
    }
}

fn ring_offset_exec(k: usize) -> (r: (i64, i64))
    requires
        k < 8,
    ensures
        r.0 == ring_offset(k as int).0,
        r.1 == ring_offset(k as int).1,
{
    match k {
        0 => (-1, -1),
        1 => (0, -1),
        2 => (1, -1),
        3 => (1, 0),
        4 => (1, 1),
        5 => (0, 1),
        6 => (-1, 1),
        _ => (-1, 0),
    }
}

/// Peucker–Douglas 3×3 operator: the cyclic signs of (neighbour − centre)
/// around the 8-ring change at least four times. Out-of-grid neighbours
/// count as lower.
pub fn ring_test(w: u32, h: u32, heights_cm: &[i32], c: u32) -> (r: bool)
    requires
        grid_ok(w, h),
        heights_cm@.len() == w * h,
        (c as int) < w * h,
    ensures
        r == (ring_changes(w, h, heights_cm@, c as int, 8) >= 4),
{
    proof {
        lemma_cell_coords(w as int, h as int, c as int);
    }
    let x = (c % w) as i64;
    let y = (c / w) as i64;
    let mut signs: Vec<bool> = Vec::new();
    let mut k: usize = 0;
    while k < 8
        invariant
            k <= 8,
            grid_ok(w, h),
            heights_cm@.len() == w * h,
            (c as int) < w * h,
            x == c % w,
            y == c / w,
            signs@.len() == k,
            forall|j: int| 0 <= j < k ==> #[trigger] signs@[j] == ring_sign(w, h, heights_cm@, c as int, j),
        decreases 8 - k,
    {
        let (dx, dy) = ring_offset_exec(k);
        let nx = x + dx;
        let ny = y + dy;
        let mut sign = false;
        if nx >= 0 && ny >= 0 && nx < w as i64 && ny < h as i64 {
            proof {
                lemma_index_coords(w as int, h as int, nx as int, ny as int);
            }
            let nb = (ny as u32) * w + (nx as u32);
            sign = is_higher(heights_cm, nb, c);
        }
        signs.push(sign);
        k = k + 1;
    }
    let mut changes: u32 = 0;
    let mut j: usize = 0;
    while j < 8
        invariant
            j <= 8,
            signs@.len() == 8,
            forall|i: int| 0 <= i < 8 ==> #[trigger] signs@[i] == ring_sign(w, h, heights_cm@, c as int, i),
            changes == ring_changes(w, h, heights_cm@, c as int, j as int),
            changes <= j,
        decreases 8 - j,
    {
        let nxt = if j + 1 == 8 { 0 } else { j + 1 };
        proof {
            assert((j as int + 1) % 8 == nxt as int);
        }
        if signs[j] != signs[nxt] {
            changes = changes + 1;
        }
        j = j + 1;
    }
    changes >= 4
}

/// The sweep's disjoint-set forest. Each component's root is its peak:
/// the first (highest) cell the component saw.
struct UnionFind {
    parent: Vec<u32>,
    rank: Ghost<Seq<nat>>,
    rep: Ghost<Seq<u32>>,
    bound: Ghost<nat>,
}

impl UnionFind {
    spec fn wf(&self) -> bool {
        &&& forest_wf(self.parent@, self.rank@, self.rep@, self.bound@)
    }

    spec fn climb(&self, i: int) -> int {
        self.bound@ - self.rank@[i]
    }

    /// The root of `i`'s set, halving the path walked. Halving changes
    /// no element's root: `rep` is the same before and after, and the
    /// result is a node that is its own parent.
    fn find(&mut self, i: u32) -> (r: u32)
        requires
            old(self).wf(),
            (i as int) < old(self).parent@.len(),
        ensures
            final(self).wf(),
            final(self).rep@ == old(self).rep@,
            final(self).parent@.len() == old(self).parent@.len(),
            r == old(self).rep@[i as int],
            final(self).parent@[r as int] == r,
            old(self).parent@[r as int] == r,
    {
        let ghost target = self.rep@[i as int];
        let ghost rep0 = self.rep@;
        let ghost len0 = self.parent@.len();
        let mut i = i;
        while self.parent[i as usize] != i
            invariant
                self.wf(),
                self.rep@ == rep0,
                self.parent@.len() == len0,
                (i as int) < len0,
                self.rep@[i as int] == target,
            decreases self.climb(i as int),
        {
            let p = self.parent[i as usize];
            let g = self.parent[p as usize];
            proof {
                lemma_halve(self.parent@, self.rank@, self.rep@, self.bound@, i as int);
                assert(self.rank@[i as int] < self.rank@[p as int]);
                if g != p {
                    assert(self.rank@[p as int] < self.rank@[g as int]);
                }
                assert(self.rank@[g as int] < self.bound@);
            }
            self.parent.set(i as usize, g);
            i = g;
        }
        proof {
            assert(self.rep@[i as int] as int == i as int);
        }
        i
    }
}

fn contains_u32(v: &Vec<u32>, x: u32) -> (r: bool)
    ensures
        r == v@.contains(x),
{
    let mut i: usize = 0;
    while i < v.len()
        invariant
            i <= v@.len(),
            forall|j: int| 0 <= j < i ==> v@[j] != x,
        decreases v@.len() - i,
    {
        if v[i] == x {
            return true;
        }
        i = i + 1;
    }
    false
}

/// The classes of the swept neighbours of `c`, each listed once with a
/// neighbour that witnesses it.
fn collect_roots(uf: &mut UnionFind, w: u32, h: u32, c: u32, swept: &Vec<bool>) -> (res: (
    Vec<u32>,
    Ghost<Seq<int>>,
))
    requires
        old(uf).wf(),
        grid_ok(w, h),
        old(uf).parent@.len() == w * h,
        swept@.len() == w * h,
        (c as int) < w * h,
    ensures
        final(uf).wf(),
        final(uf).rep@ == old(uf).rep@,
        final(uf).parent@.len() == old(uf).parent@.len(),
        res.0@.no_duplicates(),
        res.1@.len() == res.0@.len(),
        forall|j: int|
            0 <= j < res.0@.len() ==> adjacent8(w as int, h as int, c as int, #[trigger] res.1@[j]) && 0
                <= res.1@[j] < w * h && swept@[res.1@[j]] && old(uf).rep@[res.1@[j]] == res.0@[j],
        forall|nb: int|
            #[trigger] adjacent8(w as int, h as int, c as int, nb) && 0 <= nb < w * h && swept@[nb]
                ==> res.0@.contains(old(uf).rep@[nb]),
{
    let ghost rep = uf.rep@;
    let nbs = neighbors(w, h, c);
    let mut roots: Vec<u32> = Vec::new();
    let ghost mut wit: Seq<int> = Seq::empty();
    let mut j: usize = 0;
    while j < nbs.len()
        invariant
            uf.wf(),
            uf.rep@ == rep,
            rep == old(uf).rep@,
            uf.parent@.len() == w * h,
            swept@.len() == w * h,
            grid_ok(w, h),
            nbs@ == neighbors8(w as int, h as int, c as int),
            forall|i: int| 0 <= i < nbs@.len() ==> adjacent8(w as int, h as int, c as int, #[trigger] nbs@[i] as int),
            j <= nbs@.len(),
            roots@.no_duplicates(),
            wit.len() == roots@.len(),
            forall|i: int|
                0 <= i < roots@.len() ==> adjacent8(w as int, h as int, c as int, #[trigger] wit[i]) && 0
                    <= wit[i] < w * h && swept@[wit[i]] && rep[wit[i]] == roots@[i],
            forall|i: int|
                0 <= i < j && swept@[#[trigger] nbs@[i] as int] ==> roots@.contains(rep[nbs@[i] as int]),
        decreases nbs@.len() - j,
    {
        let nb = nbs[j];
        proof {
            assert(adjacent8(w as int, h as int, c as int, nbs@[j as int] as int));
        }
        if swept[nb as usize] {
            let r = uf.find(nb);
            if !contains_u32(&roots, r) {
                let ghost r0 = roots@;
                roots.push(r);
                proof {
                    wit = wit.push(nb as int);
                    assert forall|a: int, b: int| 0 <= a < roots@.len() && 0 <= b < roots@.len() && a != b implies roots@[a] != roots@[b] by {
                        if a < r0.len() && b < r0.len() {
                            assert(roots@[a] == r0[a] && roots@[b] == r0[b]);
                        } else if a < r0.len() {
                            assert(roots@[a] == r0[a]);
                            assert(r0.contains(r0[a]));
                        } else {
                            assert(roots@[b] == r0[b]);
                            assert(r0.contains(r0[b]));
                        }
                    }
                    assert forall|i: int| 0 <= i < roots@.len() implies adjacent8(w as int, h as int, c as int, #[trigger] wit[i]) && 0
                        <= wit[i] < w * h && swept@[wit[i]] && rep[wit[i]] == roots@[i] by {
                        if i < r0.len() {
                            assert(roots@[i] == r0[i]);
                        }
                    }
                    assert forall|i: int| 0 <= i < j + 1 && swept@[#[trigger] nbs@[i] as int] implies roots@.contains(rep[nbs@[i] as int]) by {
                        if i < j {
                            let t = choose|t: int| 0 <= t < r0.len() && r0[t] == rep[nbs@[i] as int];
                            assert(roots@[t] == r0[t]);
                        } else {
                            assert(roots@[r0.len() as int] == r);
                        }
                    }
                }
            }
        }
        j = j + 1;
    }
    proof {
        assert forall|nb: int|
            #[trigger] adjacent8(w as int, h as int, c as int, nb) && 0 <= nb < w * h && swept@[nb]
                implies roots@.contains(rep[nb]) by {
            lemma_adjacent_in_neighbors(w as int, h as int, c as int, nb);
            let i = choose|i: int| 0 <= i < nbs@.len() && nbs@[i] == nb as u32;
        }
    }
    (roots, Ghost(wit))
}

/// Position of the highest of `roots` in the sweep order, and of the
/// highest of the others.
fn pick_survivor(heights_cm: &[i32], roots: &Vec<u32>) -> (r: (usize, usize))
    requires
        roots@.len() >= 1,
        roots@.no_duplicates(),
        forall|j: int| 0 <= j < roots@.len() ==> (#[trigger] roots@[j] as int) < heights_cm@.len(),
    ensures
        r.0 < roots@.len(),
        forall|j: int| 0 <= j < roots@.len() && j != r.0 ==> higher(heights_cm@, roots@[r.0 as int] as int, #[trigger] roots@[j] as int),
        roots@.len() >= 2 ==> r.1 < roots@.len() && r.1 != r.0 && forall|j: int|
            0 <= j < roots@.len() && j != r.0 && j != r.1 ==> higher(heights_cm@, roots@[r.1 as int] as int, #[trigger] roots@[j] as int),
{
    let ghost hts = heights_cm@;
    let mut si: usize = 0;
    let mut k: usize = 1;
    while k < roots.len()
        invariant
            hts == heights_cm@,
            1 <= k <= roots@.len(),
            si < k,
            roots@.no_duplicates(),
            forall|j: int| 0 <= j < roots@.len() ==> (#[trigger] roots@[j] as int) < heights_cm@.len(),
            forall|j: int| 0 <= j < k && j != si ==> higher(hts, roots@[si as int] as int, #[trigger] roots@[j] as int),
        decreases roots@.len() - k,
    {
        let ghost old_si = si;
        proof {
            assert(roots@[k as int] != roots@[si as int]);
        }
        if is_higher(heights_cm, roots[k], roots[si]) {
            si = k;
        }
        proof {
            assert forall|j: int| 0 <= j < k + 1 && j != si implies higher(hts, roots@[si as int] as int, #[trigger] roots@[j] as int) by {
                if j != old_si && j < k {
                    assert(higher(hts, roots@[old_si as int] as int, roots@[j] as int));
                }
                if j != k {
                    assert(roots@[k as int] != roots@[j]);
                }
            }
        }
        k = k + 1;
    }
    if roots.len() < 2 {
        return (si, 0);
    }
    let mut ti: usize = if si == 0 { 1 } else { 0 };
    k = 0;
    while k < roots.len()
        invariant
            hts == heights_cm@,
            k <= roots@.len(),
            roots@.len() >= 2,
            si < roots@.len(),
            ti < roots@.len(),
            ti != si,
            roots@.no_duplicates(),
            forall|j: int| 0 <= j < roots@.len() ==> (#[trigger] roots@[j] as int) < heights_cm@.len(),
            forall|j: int| 0 <= j < roots@.len() && j != si ==> higher(hts, roots@[si as int] as int, #[trigger] roots@[j] as int),
            forall|j: int| 0 <= j < k && j != si && j != ti ==> higher(hts, roots@[ti as int] as int, #[trigger] roots@[j] as int),
        decreases roots@.len() - k,
    {
        let ghost old_ti = ti;
        if k != si && k != ti && is_higher(heights_cm, roots[k], roots[ti]) {
            ti = k;
        }
        proof {
            assert forall|j: int| 0 <= j < k + 1 && j != si && j != ti implies higher(hts, roots@[ti as int] as int, #[trigger] roots@[j] as int) by {
                if j != old_ti && j < k {
                    assert(higher(hts, roots@[old_ti as int] as int, roots@[j] as int));
                }
                assert(roots@[ti as int] != roots@[j]);
                if j == k {
                    assert(roots@[k as int] != roots@[old_ti as int]);
                }
            }
        }
        k = k + 1;
    }
    (si, ti)
}

/// Representatives after `c` and the classes of `roots.take(i)` joined
/// the class of `surv`.
spec fn partial_rep(rep: Seq<u32>, c: int, roots: Seq<u32>, i: int, surv: u32) -> Seq<u32> {
    Seq::new(rep.len(), |x: int| if x == c || roots.take(i).contains(rep[x]) { surv } else { rep[x] })
}

/// Attach `c` and every other root under the survivor `roots[si]`.
fn link_roots(uf: &mut UnionFind, c: u32, roots: &Vec<u32>, si: usize)
    requires
        old(uf).wf(),
        (c as int) < old(uf).parent@.len(),
        old(uf).parent@[c as int] == c,
        forall|z: int| 0 <= z < old(uf).parent@.len() && #[trigger] old(uf).rep@[z] == c ==> z == c,
        roots@.no_duplicates(),
        si < roots@.len(),
        !roots@.contains(c),
        forall|j: int|
            0 <= j < roots@.len() ==> (#[trigger] roots@[j] as int) < old(uf).parent@.len()
                && old(uf).parent@[roots@[j] as int] == roots@[j],
    ensures
        final(uf).wf(),
        final(uf).rep@ == step_rep(old(uf).rep@, c as int, roots@, roots@[si as int]),
        final(uf).parent@.len() == old(uf).parent@.len(),
{
    let ghost rep0 = uf.rep@;
    let ghost par0 = uf.parent@;
    let ghost n = par0.len();
    let surv = roots[si];
    proof {
        assert(roots@[si as int] != c);
        let (rk, bd) = lemma_link(uf.parent@, uf.rank@, uf.rep@, uf.bound@, surv as int, c as int);
        uf.rank = Ghost(rk);
        uf.bound = Ghost(bd);
        uf.rep = Ghost(relink(uf.rep@, c, surv));
        assert(rep0[c as int] == c);
        assert(uf.rep@ =~= partial_rep(rep0, c as int, roots@, 0, surv));
    }
    uf.parent.set(c as usize, surv);
    let mut i: usize = 0;
    while i < roots.len()
        invariant
            uf.wf(),
            uf.parent@.len() == n,
            rep0 == old(uf).rep@,
            i <= roots@.len(),
            si < roots@.len(),
            surv == roots@[si as int],
            roots@.no_duplicates(),
            (c as int) < n,
            !roots@.contains(c),
            uf.rep@ == partial_rep(rep0, c as int, roots@, i as int, surv),
            uf.parent@[surv as int] == surv,
            forall|j: int|
                0 <= j < roots@.len() ==> (#[trigger] roots@[j] as int) < n,
            forall|j: int|
                i <= j < roots@.len() ==> uf.parent@[#[trigger] roots@[j] as int] == roots@[j],
        decreases roots@.len() - i,
    {
        if i != si {
            let r = roots[i];
            proof {
                assert(r != surv);
                let (rk, bd) = lemma_link(uf.parent@, uf.rank@, uf.rep@, uf.bound@, surv as int, r as int);
                uf.rank = Ghost(rk);
                uf.bound = Ghost(bd);
                let prev = uf.rep@;
                uf.rep = Ghost(relink(prev, r, surv));
                assert forall|x: int| 0 <= x < n implies uf.rep@[x] == partial_rep(rep0, c as int, roots@, i + 1, surv)[x] by {
                    assert(prev[x] == partial_rep(rep0, c as int, roots@, i as int, surv)[x]);
                    assert(rep0.len() == n);
                    let t1 = roots@.take(i as int);
                    let t2 = roots@.take(i + 1);
                    assert(t2 =~= t1.push(r));
                    if x == c as int {
                    } else if t1.contains(rep0[x]) {
                        let t = choose|t: int| 0 <= t < t1.len() && #[trigger] t1[t] == rep0[x];
                        assert(t2[t] == rep0[x]);
                    } else if rep0[x] == r {
                        assert(t2[i as int] == r);
                        assert(t2.contains(rep0[x]));
                    } else {
                        if t2.contains(rep0[x]) {
                            let t = choose|t: int| 0 <= t < t2.len() && #[trigger] t2[t] == rep0[x];
                            if t < i {
                                assert(t1[t] == rep0[x]);
                            }
                        }
                    }
                }
                assert(uf.rep@ =~= partial_rep(rep0, c as int, roots@, i + 1, surv));
            }
            uf.parent.set(r as usize, surv);
            proof {
                assert forall|j: int| i + 1 <= j < roots@.len() implies uf.parent@[#[trigger] roots@[j] as int] == roots@[j] by {
                    assert(roots@[j] != r);
                }
            }
        } else {
            proof {
                assert forall|x: int| 0 <= x < n implies uf.rep@[x] == partial_rep(rep0, c as int, roots@, i + 1, surv)[x] by {
                    assert(uf.rep@[x] == partial_rep(rep0, c as int, roots@, i as int, surv)[x]);
                    assert(rep0.len() == n);
                    let t1 = roots@.take(i as int);
                    let t2 = roots@.take(i + 1);
                    assert(t2 =~= t1.push(surv));
                    if x == c as int {
                    } else if t1.contains(rep0[x]) {
                        let t = choose|t: int| 0 <= t < t1.len() && #[trigger] t1[t] == rep0[x];
                        assert(t2[t] == rep0[x]);
                    } else if rep0[x] == surv {
                        assert(t2[i as int] == surv);
                        assert(t2.contains(rep0[x]));
                    } else {
                        if t2.contains(rep0[x]) {
                            let t = choose|t: int| 0 <= t < t2.len() && #[trigger] t2[t] == rep0[x];
                            if t < i {
                                assert(t1[t] == rep0[x]);
                            }
                        }
                    }
                }
                assert(uf.rep@ =~= partial_rep(rep0, c as int, roots@, i + 1, surv));
            }
        }
        i = i + 1;
    }
    proof {
        assert(roots@.take(roots@.len() as int) =~= roots@);
        assert(uf.rep@ =~= step_rep(rep0, c as int, roots@, surv));
    }
}

/// The peak paired with saddle `c`.
pub open spec fn peak_of(w: u32, h: u32, hts: Seq<i32>, land: Seq<bool>, c: int) -> int {
    choose|p: int| paired_peak(w, h, hts, land, c, p)
}

/// A saddle has at most one paired peak.
pub proof fn lemma_paired_peak_unique(w: u32, h: u32, hts: Seq<i32>, land: Seq<bool>, c: int, p1: int, p2: int)
    requires
        paired_peak(w, h, hts, land, c, p1),
        paired_peak(w, h, hts, land, c, p2),
    ensures
        p1 == p2,
{
    let t1 = choose|t: int|
        #[trigger] top_among(w, h, hts, land, c, t) && top_among(w, h, hts, land, c, p1) && higher(hts, t, p1) && forall|u: int|
            #[trigger] top_among(w, h, hts, land, c, u) ==> u == t || u == p1 || higher(hts, p1, u);
    let t2 = choose|t: int|
        #[trigger] top_among(w, h, hts, land, c, t) && top_among(w, h, hts, land, c, p2) && higher(hts, t, p2) && forall|u: int|
            #[trigger] top_among(w, h, hts, land, c, u) ==> u == t || u == p2 || higher(hts, p2, u);
    assert(top_among(w, h, hts, land, c, p2) && top_among(w, h, hts, land, c, t2));
    assert(top_among(w, h, hts, land, c, p1) && top_among(w, h, hts, land, c, t1));
}

/// The saddle cells of `cells` whose paired peak stands at least `floor`
/// centimetres above them, in order.
pub open spec fn persistent_cells(w: u32, h: u32, hts: Seq<i32>, land: Seq<bool>, floor: i64, cells: Seq<u32>) -> Seq<u32>
    decreases cells.len(),
{
    if cells.len() == 0 {
        Seq::empty()
    } else {
        let rest = persistent_cells(w, h, hts, land, floor, cells.drop_last());
        let c = cells.last() as int;
        if hts[peak_of(w, h, hts, land, c)] - hts[c] >= floor {
            rest.push(cells.last())
        } else {
            rest
        }
    }
}

/// One pass site. Heights are integer centimetres.
#[derive(Clone, Copy, Debug, PartialEq, Eq)]
pub struct SaddleSite {
    /// Flat cell index of the saddle (row-major, y·w + x).
    pub cell: u32,
    pub x: u32,
    pub y: u32,
    pub elevation_cm: i32,
    /// Persistence: height of the paired peak above the saddle.
    pub persistence_cm: i64,
    /// The merged-away (paired) peak.
    pub peak_cell: u32,
    pub peak_elevation_cm: i32,
    /// Peucker–Douglas 8-ring operator agreement (diagnostic only).
    pub ring_saddle: bool,
}

/// The saddle cells among `0..k`, ascending.
pub open spec fn saddles_upto(w: u32, h: u32, hts: Seq<i32>, land: Seq<bool>, k: int) -> Seq<u32>
    decreases k,
{
    if k <= 0 {
        Seq::empty()
    } else if land[k - 1] && is_saddle(w, h, hts, land, k - 1) {
        saddles_upto(w, h, hts, land, k - 1).push((k - 1) as u32)
    } else {
        saddles_upto(w, h, hts, land, k - 1)
    }
}

/// The record `detect` emits for saddle `s.cell`.
pub open spec fn saddle_describes(w: u32, h: u32, hts: Seq<i32>, land: Seq<bool>, s: SaddleSite) -> bool {
    &&& s.x == s.cell % w
    &&& s.y == s.cell / w
    &&& s.elevation_cm == hts[s.cell as int]
    &&& paired_peak(w, h, hts, land, s.cell as int, s.peak_cell as int)
    &&& s.peak_elevation_cm == hts[s.peak_cell as int]
    &&& s.persistence_cm == hts[s.peak_cell as int] - hts[s.cell as int]
    &&& s.ring_saddle == (ring_changes(w, h, hts, s.cell as int, 8) >= 4)
}

proof fn lemma_swept_above(hts: Seq<i32>, land: Seq<bool>, order: Seq<u32>, k: int, swept: Seq<bool>)
    requires
        hts.len() == land.len(),
        swept.len() == land.len(),
        land.len() <= u32::MAX,
        0 <= k < order.len(),
        order.no_duplicates(),
        forall|j: int| 0 <= j < order.len() ==> (#[trigger] order[j] as int) < land.len(),
        forall|j: int| 0 <= j < order.len() ==> land[#[trigger] order[j] as int],
        forall|x: int| 0 <= x < land.len() && #[trigger] land[x] ==> order.contains(x as u32),
        forall|i: int, j: int| 0 <= i < j < order.len() ==> higher(hts, order[i] as int, order[j] as int),
        forall|x: int| 0 <= x < land.len() ==> (#[trigger] swept[x] <==> order.take(k).contains(x as u32)),
    ensures
        forall|x: int| 0 <= x < swept.len() ==> (#[trigger] swept[x] <==> above(hts, land, order[k] as int, x)),
{
    assert forall|x: int| 0 <= x < swept.len() implies (#[trigger] swept[x] <==> above(hts, land, order[k] as int, x)) by {
        if swept[x] {
            let j = choose|j: int| 0 <= j < k && #[trigger] order.take(k)[j] == x as u32;
            assert(order[j] == x as u32);
            assert(higher(hts, order[j] as int, order[k] as int));
        }
        if above(hts, land, order[k] as int, x) {
            assert(order.contains(x as u32));
            let j = choose|j: int| 0 <= j < order.len() && order[j] == x as u32;
            if j == k {
            } else if j > k {
                assert(higher(hts, order[k] as int, order[j] as int));
            } else {
                assert(order.take(k)[j] == x as u32);
            }
        }
    }
}

/// [`detect`] on slices of exactly `w × h` entries.
#[verifier::rlimit(80)]
fn detect_in_grid(w: u32, h: u32, heights_cm: &[i32], land: &[bool]) -> (sites: Vec<SaddleSite>)
    requires
        w * h <= u32::MAX,
        heights_cm@.len() == w * h,
        land@.len() == w * h,
    ensures
        sites@.len() == saddles_upto(w, h, heights_cm@, land@, w * h).len(),
        forall|j: int|
            0 <= j < sites@.len() ==> (#[trigger] sites@[j]).cell == saddles_upto(
                w,
                h,
                heights_cm@,
                land@,
                w * h,
            )[j],
        forall|j: int|
            0 <= j < sites@.len() ==> saddle_describes(w, h, heights_cm@, land@, #[trigger] sites@[j]),
{
    if w == 0 || h == 0 {
        proof {
            assert(w * h == 0) by (nonlinear_arith)
                requires
                    w == 0 || h == 0,
            ;
        }
        return Vec::new();
    }
    let n: usize = (w * h) as usize;
    let ghost hts = heights_cm@;
    let order = sweep_order(heights_cm, land);
    let mut parent: Vec<u32> = Vec::new();
    let mut swept: Vec<bool> = Vec::new();
    let mut sad: Vec<bool> = Vec::new();
    let mut pk: Vec<u32> = Vec::new();
    let mut i: usize = 0;
    while i < n
        invariant
            i <= n,
            n <= u32::MAX,
            parent@ == Seq::new(i as nat, |x: int| x as u32),
            swept@.len() == i,
            sad@.len() == i,
            pk@.len() == i,
            forall|x: int| 0 <= x < i ==> !(#[trigger] swept@[x]) && !sad@[x],
        decreases n - i,
    {
        parent.push(i as u32);
        swept.push(false);
        sad.push(false);
        pk.push(0);
        i = i + 1;
    }
    let ghost rep0 = Seq::new(n as nat, |x: int| x as u32);
    let mut uf = UnionFind {
        parent,
        rank: Ghost(Seq::new(n as nat, |x: int| 0nat)),
        rep: Ghost(rep0),
        bound: Ghost(1nat),
    };
    proof {
        assert(uf.wf());
        lemma_swept_graph_symmetric(w, h, swept@);
        assert forall|a: int, b: int|
            #![trigger uf.rep@[a], uf.rep@[b]]
            0 <= a < n && 0 <= b < n && swept@[a] && swept@[b] && uf.rep@[a] == uf.rep@[b] implies connected(swept_graph(w, h, swept@), a, b) by {}
        assert(sweep_inv(w, h, hts, swept@, uf.rep@));
        assert(order@.take(0) =~= Seq::<u32>::empty());
    }
    let mut k: usize = 0;
    while k < order.len()
        invariant
            grid_ok(w, h),
            n == w * h,
            hts == heights_cm@,
            hts.len() == n,
            land@.len() == n,
            k <= order@.len(),
            order@.no_duplicates(),
            forall|j: int| 0 <= j < order@.len() ==> (#[trigger] order@[j] as int) < n,
            forall|j: int| 0 <= j < order@.len() ==> land@[#[trigger] order@[j] as int],
            forall|x: int| 0 <= x < n && #[trigger] land@[x] ==> order@.contains(x as u32),
            forall|a: int, b: int| 0 <= a < b < order@.len() ==> higher(hts, order@[a] as int, order@[b] as int),
            uf.wf(),
            uf.parent@.len() == n,
            swept@.len() == n,
            sad@.len() == n,
            pk@.len() == n,
            forall|x: int| 0 <= x < n ==> (#[trigger] swept@[x] <==> order@.take(k as int).contains(x as u32)),
            sweep_inv(w, h, hts, swept@, uf.rep@),
            forall|x: int|
                0 <= x < n && #[trigger] sad@[x] ==> swept@[x] && is_saddle(w, h, hts, land@, x) && paired_peak(
                    w,
                    h,
                    hts,
                    land@,
                    x,
                    pk@[x] as int,
                ) && (pk@[x] as int) < n,
            forall|x: int| 0 <= x < n && #[trigger] swept@[x] && !sad@[x] ==> !is_saddle(w, h, hts, land@, x),
        decreases order@.len() - k,
    {
        let c = order[k];
        let ghost rep = uf.rep@;
        let ghost sw = swept@;
        proof {
            lemma_swept_above(hts, land@, order@, k as int, sw);
            assert(!sw[c as int]) by {
                if sw[c as int] {
                    let j = choose|j: int| 0 <= j < k && #[trigger] order@.take(k as int)[j] == c;
                    assert(order@[j] == order@[k as int]);
                }
            }
            assert(rep[c as int] == c);
            assert forall|z: int| 0 <= z < n && #[trigger] rep[z] == c implies z == c by {
                if z != c as int {
                    assert(rep[z] as int != z);
                }
            }
        }
        let (roots, wit) = collect_roots(&mut uf, w, h, c, &swept);
        proof {
            assert forall|j: int| 0 <= j < roots@.len() implies (#[trigger] roots@[j] as int) < n && sw[roots@[j] as int]
                && rep[roots@[j] as int] == roots@[j] && uf.parent@[roots@[j] as int] == roots@[j] by {
                let nb = wit@[j];
                assert(rep[nb] == roots@[j]);
                assert(sw[rep[nb] as int]);
                assert(uf.parent@[rep[nb] as int] == rep[nb]);
            }
            assert(!roots@.contains(c)) by {
                if roots@.contains(c) {
                    let j = choose|j: int| 0 <= j < roots@.len() && roots@[j] == c;
                    assert(sw[roots@[j] as int]);
                }
            }
            assert forall|z: int| 0 <= z < n implies (#[trigger] rep[z] as int) < n && rep[rep[z] as int] == rep[z] by {
                assert(uf.parent@[rep[z] as int] == rep[z]);
            }
            assert forall|x: int| 0 <= x < n && #[trigger] sw[x] implies higher(hts, x, c as int) by {}
        }
        if roots.len() == 0 {
            proof {
                lemma_sweep_step(w, h, hts, sw, rep, c as int, roots@, wit@, 0);
                lemma_site_spec(w, h, hts, land@, sw, rep, c as int, roots@, wit@, 0);
            }
        } else {
            let (si, ti) = pick_survivor(heights_cm, &roots);
            let surv = roots[si];
            proof {
                assert(roots@.contains(surv));
                assert forall|j: int| 0 <= j < roots@.len() implies #[trigger] roots@[j] == surv || higher(hts, surv as int, roots@[j] as int) by {
                    if j != si {
                    }
                }
                lemma_sweep_step(w, h, hts, sw, rep, c as int, roots@, wit@, surv);
                lemma_site_spec(w, h, hts, land@, sw, rep, c as int, roots@, wit@, surv);
            }
            link_roots(&mut uf, c, &roots, si);
            if roots.len() >= 2 {
                let second = roots[ti];
                proof {
                    assert(top_among(w, h, hts, land@, c as int, surv as int));
                    assert(top_among(w, h, hts, land@, c as int, second as int));
                    assert(higher(hts, surv as int, second as int));
                    assert forall|u: int| #[trigger] top_among(w, h, hts, land@, c as int, u) implies u == surv as int || u
                        == second as int || higher(hts, second as int, u) by {
                        let j = choose|j: int| 0 <= j < roots@.len() && roots@[j] == u as u32;
                        if j != si && j != ti {
                            assert(higher(hts, roots@[ti as int] as int, roots@[j] as int));
                        }
                    }
                    assert(paired_peak(w, h, hts, land@, c as int, second as int));
                }
                sad.set(c as usize, true);
                pk.set(c as usize, second);
            }
        }
        swept.set(c as usize, true);
        proof {
            assert(swept@ == sw.update(c as int, true));
            assert forall|x: int| 0 <= x < n implies (#[trigger] swept@[x] <==> order@.take(k + 1).contains(x as u32)) by {
                assert(order@.take(k + 1) =~= order@.take(k as int).push(c));
                if order@.take(k as int).contains(x as u32) {
                    let j = choose|j: int| 0 <= j < k && #[trigger] order@.take(k as int)[j] == x as u32;
                    assert(order@.take(k + 1)[j] == x as u32);
                }
                if order@.take(k + 1).contains(x as u32) {
                    let j = choose|j: int| 0 <= j < k + 1 && #[trigger] order@.take(k + 1)[j] == x as u32;
                    if j < k {
                        assert(order@.take(k as int)[j] == x as u32);
                    }
                }
                if x == c as int {
                    assert(order@.take(k + 1)[k as int] == c);
                }
            }
        }
        k = k + 1;
    }
    proof {
        assert forall|x: int| 0 <= x < n && #[trigger] land@[x] implies swept@[x] by {
            assert(order@.take(order@.len() as int) =~= order@);
        }
    }
    let mut sites: Vec<SaddleSite> = Vec::new();
    let mut x: usize = 0;
    while x < n
        invariant
            grid_ok(w, h),
            n == w * h,
            hts == heights_cm@,
            hts.len() == n,
            land@.len() == n,
            x <= n,
            sad@.len() == n,
            pk@.len() == n,
            swept@.len() == n,
            forall|y: int| 0 <= y < n && #[trigger] land@[y] ==> swept@[y],
            forall|y: int|
                0 <= y < n && #[trigger] sad@[y] ==> swept@[y] && is_saddle(w, h, hts, land@, y) && paired_peak(
                    w,
                    h,
                    hts,
                    land@,
                    y,
                    pk@[y] as int,
                ) && (pk@[y] as int) < n,
            forall|y: int| 0 <= y < n && #[trigger] swept@[y] && !sad@[y] ==> !is_saddle(w, h, hts, land@, y),
            forall|y: int| 0 <= y < n && #[trigger] swept@[y] ==> land@[y],
            sites@.len() == saddles_upto(w, h, hts, land@, x as int).len(),
            forall|j: int|
                0 <= j < sites@.len() ==> (#[trigger] sites@[j]).cell == saddles_upto(w, h, hts, land@, x as int)[j],
            forall|j: int| 0 <= j < sites@.len() ==> saddle_describes(w, h, hts, land@, #[trigger] sites@[j]),
        decreases n - x,
    {
        let ghost before = sites@;
        if sad[x] {
            let c = x as u32;
            let p = pk[x];
            let e = heights_cm[x];
            let pe = heights_cm[p as usize];
            let ring = ring_test(w, h, heights_cm, c);
            sites.push(SaddleSite {
                cell: c,
                x: c % w,
                y: c / w,
                elevation_cm: e,
                persistence_cm: pe as i64 - e as i64,
                peak_cell: p,
                peak_elevation_cm: pe,
                ring_saddle: ring,
            });
            proof {
                assert forall|j: int| 0 <= j < sites@.len() implies (#[trigger] sites@[j]).cell == saddles_upto(w, h, hts, land@, x + 1)[j] by {
                    if j < before.len() {
                        assert(sites@[j] == before[j]);
                    }
                }
                assert forall|j: int| 0 <= j < sites@.len() implies saddle_describes(w, h, hts, land@, #[trigger] sites@[j]) by {
                    if j < before.len() {
                        assert(sites@[j] == before[j]);
                    }
                }
            }
        } else {
            proof {
                if land@[x as int] {
                    assert(swept@[x as int]);
                }
            }
        }
        x = x + 1;
    }
    sites
}

/// Detect all pass sites, in ascending cell order: the land cells that
/// join two or more components of the land above them, each paired with
/// the second highest of those components' peaks.
pub fn detect(w: u32, h: u32, heights_cm: &[i32], land: &[bool]) -> (sites: Vec<SaddleSite>)
    requires
        w * h <= u32::MAX,
        heights_cm@.len() >= w * h,
        land@.len() >= w * h,
    ensures
        sites@.len() == saddles_upto(w, h, on_grid(w, h, heights_cm@), on_grid(w, h, land@), w * h).len(),
        forall|j: int|
            0 <= j < sites@.len() ==> (#[trigger] sites@[j]).cell == saddles_upto(
                w,
                h,
                on_grid(w, h, heights_cm@),
                on_grid(w, h, land@),
                w * h,
            )[j],
        forall|j: int|
            0 <= j < sites@.len() ==> saddle_describes(w, h, on_grid(w, h, heights_cm@), on_grid(w, h, land@), #[trigger] sites@[j]),
{
    let heights_cm = grid_part(w, h, heights_cm);
    let land = grid_part(w, h, land);
    detect_in_grid(w, h, heights_cm, land)
}

/// The land above `c` is closed under its own adjacency.
proof fn lemma_above_reach(w: u32, h: u32, hts: Seq<i32>, land: Seq<bool>, c: int, a: int, b: int)
    requires
        above(hts, land, c, a),
        connected(above_graph(w, h, hts, land, c), a, b),
    ensures
        above(hts, land, c, b),
{
    let g = above_graph(w, h, hts, land, c);
    let s = |x: int| above(hts, land, c, x);
    assert(closed(g, s));
    lemma_closed_reach(g, s, a, b);
}

/// A paired peak stands above its saddle: persistence is never negative.
pub proof fn lemma_persistence_nonneg(w: u32, h: u32, hts: Seq<i32>, land: Seq<bool>, c: int, p: int)
    requires
        paired_peak(w, h, hts, land, c, p),
    ensures
        higher(hts, p, c),
        hts[p] >= hts[c],
{
    let t = choose|t: int|
        #[trigger] top_among(w, h, hts, land, c, t) && top_among(w, h, hts, land, c, p) && higher(hts, t, p)
            && forall|u: int| #[trigger] top_among(w, h, hts, land, c, u) ==> u == t || u == p || higher(hts, p, u);
    let nb = choose|nb: int| upper_neighbor(w, h, hts, land, c, nb) && #[trigger] is_top(w, h, hts, land, c, nb, p);
    lemma_above_reach(w, h, hts, land, c, nb, p);
}

/// [`detect_min_persistence`] on slices of exactly `w × h` entries.
fn detect_min_persistence_in_grid(w: u32, h: u32, heights_cm: &[i32], land: &[bool], min_persistence_cm: i64) -> (sites: Vec<SaddleSite>)
    requires
        w * h <= u32::MAX,
        heights_cm@.len() == w * h,
        land@.len() == w * h,
    ensures
        sites@.len() == persistent_cells(w, h, heights_cm@, land@, min_persistence_cm, saddles_upto(w, h, heights_cm@, land@, w * h)).len(),
        forall|j: int|
            0 <= j < sites@.len() ==> (#[trigger] sites@[j]).cell == persistent_cells(
                w,
                h,
                heights_cm@,
                land@,
                min_persistence_cm,
                saddles_upto(w, h, heights_cm@, land@, w * h),
            )[j],
        forall|j: int| 0 <= j < sites@.len() ==> saddle_describes(w, h, heights_cm@, land@, #[trigger] sites@[j]),
        forall|j: int| 0 <= j < sites@.len() ==> (#[trigger] sites@[j]).persistence_cm >= min_persistence_cm,
{
    if w == 0 || h == 0 {
        proof {
            assert(w * h == 0) by (nonlinear_arith)
                requires
                    w == 0 || h == 0,
            ;
        }
        return Vec::new();
    }
    let all = detect_in_grid(w, h, heights_cm, land);
    let ghost hts = heights_cm@;
    let ghost ld = land@;
    let ghost cells = saddles_upto(w, h, hts, ld, w * h);
    let mut out: Vec<SaddleSite> = Vec::new();
    let mut j: usize = 0;
    while j < all.len()
        invariant
            j <= all@.len(),
            all@.len() == cells.len(),
            hts == heights_cm@,
            ld == land@,
            forall|i: int| 0 <= i < all@.len() ==> (#[trigger] all@[i]).cell == cells[i],
            forall|i: int| 0 <= i < all@.len() ==> saddle_describes(w, h, hts, ld, #[trigger] all@[i]),
            out@.len() == persistent_cells(w, h, hts, ld, min_persistence_cm, cells.take(j as int)).len(),
            forall|i: int|
                0 <= i < out@.len() ==> (#[trigger] out@[i]).cell == persistent_cells(
                    w,
                    h,
                    hts,
                    ld,
                    min_persistence_cm,
                    cells.take(j as int),
                )[i],
            forall|i: int| 0 <= i < out@.len() ==> saddle_describes(w, h, hts, ld, #[trigger] out@[i]),
            forall|i: int| 0 <= i < out@.len() ==> (#[trigger] out@[i]).persistence_cm >= min_persistence_cm,
        decreases all@.len() - j,
    {
        let site = all[j];
        proof {
            let c = site.cell as int;
            assert(saddle_describes(w, h, hts, ld, site));
            let p = peak_of(w, h, hts, ld, c);
            assert(paired_peak(w, h, hts, ld, c, site.peak_cell as int));
            lemma_paired_peak_unique(w, h, hts, ld, c, p, site.peak_cell as int);
            assert(cells.take(j + 1).drop_last() =~= cells.take(j as int));
            assert(cells.take(j + 1).last() == site.cell);
        }
        let ghost o0 = out@;
        if site.persistence_cm >= min_persistence_cm {
            out.push(site);
            proof {
                assert forall|i: int| 0 <= i < out@.len() implies (#[trigger] out@[i]).cell == persistent_cells(
                    w,
                    h,
                    hts,
                    ld,
                    min_persistence_cm,
                    cells.take(j + 1),
                )[i] by {
                    if i < o0.len() {
                        assert(out@[i] == o0[i]);
                    }
                }
            }
        }
        j = j + 1;
    }
    proof {
        assert(cells.take(all@.len() as int) =~= cells);
    }
    out
}

/// Detect the pass sites whose persistence reaches `min_persistence_cm`,
/// in ascending cell order: the sites of `detect` with the others left out.
pub fn detect_min_persistence(w: u32, h: u32, heights_cm: &[i32], land: &[bool], min_persistence_cm: i64) -> (sites: Vec<SaddleSite>)
    requires
        w * h <= u32::MAX,
        heights_cm@.len() >= w * h,
        land@.len() >= w * h,
    ensures
        sites@.len() == persistent_cells(w, h, on_grid(w, h, heights_cm@), on_grid(w, h, land@), min_persistence_cm, saddles_upto(w, h, on_grid(w, h, heights_cm@), on_grid(w, h, land@), w * h)).len(),
        forall|j: int|
            0 <= j < sites@.len() ==> (#[trigger] sites@[j]).cell == persistent_cells(
                w,
                h,
                on_grid(w, h, heights_cm@),
                on_grid(w, h, land@),
                min_persistence_cm,
                saddles_upto(w, h, on_grid(w, h, heights_cm@), on_grid(w, h, land@), w * h),
            )[j],
        forall|j: int| 0 <= j < sites@.len() ==> saddle_describes(w, h, on_grid(w, h, heights_cm@), on_grid(w, h, land@), #[trigger] sites@[j]),
        forall|j: int| 0 <= j < sites@.len() ==> (#[trigger] sites@[j]).persistence_cm >= min_persistence_cm,
{
    let heights_cm = grid_part(w, h, heights_cm);
    let land = grid_part(w, h, land);
    detect_min_persistence_in_grid(w, h, heights_cm, land, min_persistence_cm)
}

} // verus!
