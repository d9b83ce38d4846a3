//! Terrain base level: the ocean is the below-sea water connected to the
//! grid border. Enclosed sub-sea pockets are not base level; they flood
//! to their spill on the routed surface as lakes.

use vstd::prelude::*;

use crate::connect::{closed, connected, lemma_closed_reach, lemma_connected_refl, lemma_connected_step};
use crate::flow::lemma_distinct_cells;
use crate::grid::{adjacent8, grid_ok, grid_part, on_grid, is_border, lemma_adjacent_in_neighbors, neighbors, neighbors8};

verus! {

/// D8 adjacency among the below-sea cells.
pub open spec fn sea_graph(w: u32, h: u32, below: Seq<bool>) -> spec_fn(int, int) -> bool {
    |a: int, b: int| adjacent8(w as int, h as int, a, b) && below[a] && below[b]
}

/// `i` lies on the outer ring of the grid.
pub open spec fn on_border(w: u32, h: u32, i: int) -> bool {
    i % (w as int) == 0 || i / (w as int) == 0 || i % (w as int) == w - 1 || i / (w as int) == h - 1
}

/// `b` is a below-sea border cell connected to `i` through below-sea
/// cells.
pub open spec fn ocean_source(w: u32, h: u32, below: Seq<bool>, b: int, i: int) -> bool {
    0 <= b < w * h && on_border(w, h, b) && below[b] && connected(sea_graph(w, h, below), b, i)
}

/// [`ocean_mask`] on slices of exactly `w × h` entries.
fn ocean_mask_in_grid(w: u32, h: u32, below: &[bool]) -> (ocean: Vec<bool>)
    requires
        w * h <= u32::MAX,
        below@.len() == w * h,
    ensures
        ocean@.len() == w * h,
        forall|i: int| 0 <= i < w * h ==> (#[trigger] ocean@[i] <==> exists|b: int| #[trigger] ocean_source(w, h, below@, b, i)),
{
    if w == 0 || h == 0 {
        proof {
            assert(w * h == 0) by (nonlinear_arith)
                requires
                    w == 0 || h == 0,
            ;
        }
        return Vec::new();
    }
    let n: u32 = w * h;
    let ghost g = sea_graph(w, h, below@);
    let mut ocean: Vec<bool> = Vec::new();
    let mut queue: Vec<u32> = Vec::new();
    let mut i: u32 = 0;
    while i < n
        invariant
            i <= n,
            n == w * h,
            grid_ok(w, h),
            below@.len() == n,
            g == sea_graph(w, h, below@),
            ocean@.len() == i,
            queue@.no_duplicates(),
            forall|j: int| 0 <= j < queue@.len() ==> (#[trigger] queue@[j] as int) < i,
            forall|x: int| 0 <= x < i ==> (#[trigger] ocean@[x] <==> queue@.contains(x as u32)),
            forall|x: int| 0 <= x < i ==> (#[trigger] ocean@[x] <==> (on_border(w, h, x) && below@[x])),
        decreases n - i,
    {
        if is_border(w, h, i) && below[i as usize] {
            let ghost q0 = queue@;
            ocean.push(true);
            queue.push(i);
            proof {
                assert forall|a: int, b: int| 0 <= a < queue@.len() && 0 <= b < queue@.len() && a != b implies queue@[a] != queue@[b] by {
                    if a < q0.len() && b < q0.len() {
                        assert(queue@[a] == q0[a] && queue@[b] == q0[b]);
                    } else if a < q0.len() {
                        assert(queue@[a] == q0[a]);
                    } else {
                        assert(queue@[b] == q0[b]);
                    }
                }
                assert forall|x: int| 0 <= x < i + 1 implies (#[trigger] ocean@[x] <==> queue@.contains(x as u32)) by {
                    if x < i {
                        if q0.contains(x as u32) {
                            let j = choose|j: int| 0 <= j < q0.len() && q0[j] == x as u32;
                            assert(queue@[j] == q0[j]);
                        }
                        if queue@.contains(x as u32) {
                            let j = choose|j: int| 0 <= j < queue@.len() && queue@[j] == x as u32;
                            if j < q0.len() {
                                assert(queue@[j] == q0[j]);
                            }
                        }
                    } else {
                        assert(queue@[q0.len() as int] == i);
                    }
                }
            }
        } else {
            ocean.push(false);
            proof {
                assert(!queue@.contains(i));
            }
        }
        i = i + 1;
    }
    let ghost mut srcs: Seq<int> = queue@.map_values(|q: u32| q as int);
    proof {
        assert forall|j: int| 0 <= j < queue@.len() implies #[trigger] ocean_source(w, h, below@, srcs[j], queue@[j] as int) by {
            let x = queue@[j] as int;
            assert(ocean@[x]);
            lemma_connected_refl(g, x);
        }
        assert forall|j: int| 0 <= j < queue@.len() implies below@[#[trigger] queue@[j] as int] by {
            let x = queue@[j] as int;
            assert(ocean@[x]);
        }
    }
    let mut head: usize = 0;
    while head < queue.len()
        invariant
            n == w * h,
            grid_ok(w, h),
            below@.len() == n,
            g == sea_graph(w, h, below@),
            ocean@.len() == n,
            head <= queue@.len(),
            queue@.no_duplicates(),
            forall|j: int| 0 <= j < queue@.len() ==> (#[trigger] queue@[j] as int) < n,
            forall|x: int| 0 <= x < n ==> (#[trigger] ocean@[x] <==> queue@.contains(x as u32)),
            forall|x: int| 0 <= x < n && on_border(w, h, x) && below@[x] ==> #[trigger] ocean@[x],
            srcs.len() == queue@.len(),
            forall|j: int| 0 <= j < queue@.len() ==> #[trigger] ocean_source(w, h, below@, srcs[j], queue@[j] as int),
            forall|j: int| 0 <= j < queue@.len() ==> below@[#[trigger] queue@[j] as int],
            forall|j: int, v: int| 0 <= j < head && #[trigger] g(queue@[j] as int, v) ==> ocean@[v],
        decreases n - head,
    {
        proof {
            lemma_distinct_cells(queue@, n as int);
        }
        let c = queue[head];
        let nbs = neighbors(w, h, c);
        let mut k: usize = 0;
        while k < nbs.len()
            invariant
                n == w * h,
                grid_ok(w, h),
                below@.len() == n,
                g == sea_graph(w, h, below@),
                ocean@.len() == n,
                head < queue@.len(),
                c == queue@[head as int],
                (c as int) < n,
                nbs@ == neighbors8(w as int, h as int, c as int),
                forall|j: int| 0 <= j < nbs@.len() ==> adjacent8(w as int, h as int, c as int, #[trigger] nbs@[j] as int),
                k <= nbs@.len(),
                queue@.no_duplicates(),
                forall|j: int| 0 <= j < queue@.len() ==> (#[trigger] queue@[j] as int) < n,
                forall|x: int| 0 <= x < n ==> (#[trigger] ocean@[x] <==> queue@.contains(x as u32)),
                forall|x: int| 0 <= x < n && on_border(w, h, x) && below@[x] ==> #[trigger] ocean@[x],
                srcs.len() == queue@.len(),
                forall|j: int| 0 <= j < queue@.len() ==> #[trigger] ocean_source(w, h, below@, srcs[j], queue@[j] as int),
                forall|j: int| 0 <= j < queue@.len() ==> below@[#[trigger] queue@[j] as int],
                forall|j: int, v: int| 0 <= j < head && #[trigger] g(queue@[j] as int, v) ==> ocean@[v],
                forall|t: int| 0 <= t < k && #[trigger] g(c as int, nbs@[t] as int) ==> ocean@[nbs@[t] as int],
            decreases nbs@.len() - k,
        {
            let nb = nbs[k];
            proof {
                assert(adjacent8(w as int, h as int, c as int, nbs@[k as int] as int));
            }
            if !ocean[nb as usize] && below[nb as usize] {
                let ghost q0 = queue@;
                proof {
                    assert(queue@.contains(c));
                    assert(below@[c as int]);
                    assert(g(c as int, nb as int));
                    assert(ocean_source(w, h, below@, srcs[head as int], c as int));
                    lemma_connected_step(g, srcs[head as int], c as int, nb as int);
                    assert(!queue@.contains(nb));
                }
                ocean.set(nb as usize, true);
                queue.push(nb);
                proof {
                    let b = srcs[head as int];
                    let s0 = srcs;
                    srcs = srcs.push(b);
                    assert forall|a: int, b: int| 0 <= a < queue@.len() && 0 <= b < queue@.len() && a != b implies queue@[a] != queue@[b] by {
                        if a < q0.len() && b < q0.len() {
                            assert(queue@[a] == q0[a] && queue@[b] == q0[b]);
                        } else if a < q0.len() {
                            assert(queue@[a] == q0[a]);
                            assert(q0.contains(q0[a]));
                        } else {
                            assert(queue@[b] == q0[b]);
                            assert(q0.contains(q0[b]));
                        }
                    }
                    assert forall|j: int| 0 <= j < queue@.len() implies (#[trigger] queue@[j] as int) < n by {
                        if j < q0.len() { assert(queue@[j] == q0[j]); }
                    }
                    assert forall|j: int| 0 <= j < queue@.len() implies below@[#[trigger] queue@[j] as int] by {
                        if j < q0.len() { assert(queue@[j] == q0[j]); }
                    }
                    assert forall|x: int| 0 <= x < n implies (#[trigger] ocean@[x] <==> queue@.contains(x as u32)) by {
                        if x == nb as int {
                            assert(queue@[q0.len() as int] == nb);
                        } else {
                            if q0.contains(x as u32) {
                                let j = choose|j: int| 0 <= j < q0.len() && q0[j] == x as u32;
                                assert(queue@[j] == q0[j]);
                            }
                            if queue@.contains(x as u32) {
                                let j = choose|j: int| 0 <= j < queue@.len() && queue@[j] == x as u32;
                                if j < q0.len() {
                                    assert(queue@[j] == q0[j]);
                                }
                            }
                        }
                    }
                    assert forall|j: int| 0 <= j < queue@.len() implies #[trigger] ocean_source(w, h, below@, srcs[j], queue@[j] as int) by {
                        if j < q0.len() {
                            assert(queue@[j] == q0[j]);
                            assert(srcs[j] == s0[j]);
                        }
                    }
                    assert forall|j: int, v: int| 0 <= j < head && #[trigger] g(queue@[j] as int, v) implies ocean@[v] by {
                        assert(queue@[j] == q0[j]);
                    }
                }
            }
            k = k + 1;
        }
        proof {
            assert forall|j: int, v: int| 0 <= j < head + 1 && #[trigger] g(queue@[j] as int, v) implies ocean@[v] by {
                if j == head {
                    lemma_adjacent_in_neighbors(w as int, h as int, c as int, v);
                    let t = choose|t: int| 0 <= t < nbs@.len() && nbs@[t] == v as u32;
                    assert(g(c as int, nbs@[t] as int));
                }
            }
        }
        head = head + 1;
    }
    proof {
        let s = |z: int| 0 <= z < n && ocean@[z];
        assert forall|u: int, v: int| s(u) && #[trigger] g(u, v) implies s(v) by {
            let j = choose|j: int| 0 <= j < queue@.len() && queue@[j] == u as u32;
            assert(g(queue@[j] as int, v));
        }
        assert forall|i: int| 0 <= i < w * h implies (#[trigger] ocean@[i] <==> exists|b: int| #[trigger] ocean_source(w, h, below@, b, i)) by {
            if ocean@[i] {
                let j = choose|j: int| 0 <= j < queue@.len() && queue@[j] == i as u32;
                assert(ocean_source(w, h, below@, srcs[j], i));
            }
            if exists|b: int| #[trigger] ocean_source(w, h, below@, b, i) {
                let b = choose|b: int| #[trigger] ocean_source(w, h, below@, b, i);
                assert(ocean@[b]);
                lemma_closed_reach(g, s, b, i);
            }
        }
    }
    ocean
}

/// The base-level mask: below-sea cells reachable from a below-sea
/// border cell through below-sea D8 neighbours.
pub fn ocean_mask(w: u32, h: u32, below: &[bool]) -> (ocean: Vec<bool>)
    requires
        w * h <= u32::MAX,
        below@.len() >= w * h,
    ensures
        ocean@.len() == w * h,
        forall|i: int| 0 <= i < w * h ==> (#[trigger] ocean@[i] <==> exists|b: int| #[trigger] ocean_source(w, h, on_grid(w, h, below@), b, i)),
{
    let below = grid_part(w, h, below);
    ocean_mask_in_grid(w, h, below)
}

} // verus!
