//! Suitability stage, integer core: output namespacing, confluence sites
//! on the inverted receivers tree, the mouth-connected navigable set and
//! its heads, contiguous patches, and pass (saddle) detection by the
//! superlevel-set union-find sweep.

use vstd::prelude::*;

use crate::connect::{
    closed, component, connected, lemma_closed_reach, lemma_connected_refl, lemma_connected_step,
    lemma_connected_sym, lemma_connected_trans, lemma_same_component, symmetric,
};
use crate::flow::lemma_distinct_cells;
use crate::grid::{grid_ok, grid_part, on_grid, lemma_cell_coords, lemma_index_coords};
use crate::order::{sort_u64, sorted_u64};
use crate::text::{is_valid_label, join, join_spec, valid_label, InvalidLabel};

verus! {

/// Output filenames are namespaced by the config label; the label must be
/// non-empty and match `[a-z0-9_-]+` so it can never escape the run
/// directory or collide across configs.
pub fn validate_label(label: &str) -> (r: Result<(), InvalidLabel>)
    ensures
        r is Ok <==> valid_label(label@, true),
{
    if is_valid_label(label, true) {
        Ok(())
    } else {
        Err(InvalidLabel)
    }
}

/// Namespaced raster filename: `suitability.<label>.<name>.vrast`.
pub fn raster_filename(label: &str, name: &str) -> (r: String)
    ensures
        r@ == "suitability."@ + label@ + "."@ + name@ + ".vrast"@,
{
    let parts = [ "suitability.", label, ".", name, ".vrast" ];
    let r = join(&parts);
    proof {
        assert(parts@ =~= seq!["suitability.", label, ".", name, ".vrast"]);
        reveal_with_fuel(join_spec, 6);
    }
    r
}

/// Namespaced stage-summary filename: `suitability.<label>.json`.
pub fn summary_filename(label: &str) -> (r: String)
    ensures
        r@ == "suitability."@ + label@ + ".json"@,
{
    let parts = [ "suitability.", label, ".json" ];
    let r = join(&parts);
    proof {
        assert(parts@ =~= seq!["suitability.", label, ".json"]);
        reveal_with_fuel(join_spec, 4);
    }
    r
}

/// `a` and `b` are 4-adjacent suitable cells of the `w × h` grid.
pub open spec fn adj4(w: int, h: int, suit: Seq<bool>, a: int, b: int) -> bool {
    &&& 0 <= a < w * h
    &&& 0 <= b < w * h
    &&& suit[a]
    &&& suit[b]
    &&& ((a / w == b / w && (a % w == b % w + 1 || b % w == a % w + 1)) || (a % w == b % w && (a
        / w == b / w + 1 || b / w == a / w + 1)))
}

/// The patch graph: suitable cells joined by 4-adjacency.
pub open spec fn patch_graph(w: u32, h: u32, suit: Seq<bool>) -> spec_fn(int, int) -> bool {
    |a: int, b: int| adj4(w as int, h as int, suit, a, b)
}

/// `q` lists, without repetition, exactly the grid cells connected to `a`.
pub open spec fn enumerates(w: u32, h: u32, suit: Seq<bool>, q: Seq<u32>, a: int) -> bool {
    &&& q.no_duplicates()
    &&& forall|j: int| 0 <= j < q.len() ==> (#[trigger] q[j] as int) < w * h
    &&& forall|x: int|
        0 <= x < w * h ==> (q.contains(x as u32) <==> connected(patch_graph(w, h, suit), a, x))
}

/// Two enumerations of connected cells list the same cells, so they
/// are equally long.
proof fn lemma_enumerations_agree(w: u32, h: u32, suit: Seq<bool>, p: Seq<u32>, a: int, q: Seq<u32>, b: int)
    requires
        enumerates(w, h, suit, p, a),
        enumerates(w, h, suit, q, b),
        connected(patch_graph(w, h, suit), a, b),
    ensures
        p.len() == q.len(),
{
    let g = patch_graph(w, h, suit);
    lemma_patch_graph_symmetric(w, h, suit);
    lemma_connected_sym(g, a, b);
    assert forall|x: u32| p.to_set().contains(x) <==> q.to_set().contains(x) by {
        if p.contains(x) {
            let j = choose|j: int| 0 <= j < p.len() && p[j] == x;
            assert((p[j] as int) < w * h);
            lemma_connected_trans(g, b, a, x as int);
        }
        if q.contains(x) {
            let j = choose|j: int| 0 <= j < q.len() && q[j] == x;
            assert((q[j] as int) < w * h);
            lemma_connected_trans(g, a, b, x as int);
        }
    }
    assert(p.to_set() =~= q.to_set());
    p.unique_seq_to_set();
    q.unique_seq_to_set();
}

/// Patches that meet the ranking and whole-component contract share no
/// cell, and a suitable cell lies in one of them exactly when its
/// component is not small.
pub proof fn lemma_patches_partition(w: u32, h: u32, suit: Seq<bool>, min_cells: u64, ps: Seq<Seq<u32>>)
    requires
        forall|k: int| 0 <= k < ps.len() ==> is_patch(w, h, suit, min_cells, #[trigger] ps[k]),
        forall|k: int, l: int| 0 <= k < l < ps.len() ==> ranked_before(ps[k], ps[l]),
        forall|c: int|
            0 <= c < w * h && #[trigger] suit[c] ==> (exists|k: int|
                0 <= k < ps.len() && (#[trigger] ps[k]).contains(c as u32))
                || small_component(w, h, suit, min_cells, c),
    ensures
        forall|k: int, l: int, c: u32|
            0 <= k < l < ps.len() ==> !(#[trigger] ps[k].contains(c) && #[trigger] ps[l].contains(c)),
        forall|c: int|
            0 <= c < w * h && #[trigger] suit[c] ==> ((exists|k: int|
                0 <= k < ps.len() && (#[trigger] ps[k]).contains(c as u32)) <==> !small_component(
                w,
                h,
                suit,
                min_cells,
                c,
            )),
{
    let g = patch_graph(w, h, suit);
    lemma_patch_graph_symmetric(w, h, suit);
    assert forall|k: int, l: int, c: u32|
        0 <= k < l < ps.len() implies !(#[trigger] ps[k].contains(c) && #[trigger] ps[l].contains(c)) by {
        if ps[k].contains(c) && ps[l].contains(c) {
            let p = ps[k];
            let q = ps[l];
            assert(is_patch(w, h, suit, min_cells, p));
            assert(is_patch(w, h, suit, min_cells, q));
            let i = choose|i: int| 0 <= i < p.len() && p[i] == c;
            assert((p[i] as int) < w * h);
            lemma_connected_sym(g, q[0] as int, c as int);
            lemma_connected_trans(g, p[0] as int, c as int, q[0] as int);
            lemma_connected_sym(g, p[0] as int, q[0] as int);
            assert(p[0] <= q[0]);
            assert(q[0] <= p[0]);
            lemma_enumerations_agree(w, h, suit, p, p[0] as int, q, q[0] as int);
            assert(ranked_before(p, q));
        }
    }
    assert forall|c: int| 0 <= c < w * h && #[trigger] suit[c] implies ((exists|k: int|
        0 <= k < ps.len() && (#[trigger] ps[k]).contains(c as u32)) <==> !small_component(
        w,
        h,
        suit,
        min_cells,
        c,
    )) by {
        if exists|k: int| 0 <= k < ps.len() && (#[trigger] ps[k]).contains(c as u32) {
            let k = choose|k: int| 0 <= k < ps.len() && (#[trigger] ps[k]).contains(c as u32);
            let p = ps[k];
            assert(is_patch(w, h, suit, min_cells, p));
            if small_component(w, h, suit, min_cells, c) {
                let q = choose|q: Seq<u32>| #[trigger] enumerates(w, h, suit, q, c) && q.len() < min_cells;
                lemma_enumerations_agree(w, h, suit, p, p[0] as int, q, c);
            }
        }
    }
}

/// The component of `c` has fewer than `min_cells` cells.
pub open spec fn small_component(w: u32, h: u32, suit: Seq<bool>, min_cells: u64, c: int) -> bool {
    exists|q: Seq<u32>| #[trigger] enumerates(w, h, suit, q, c) && q.len() < min_cells
}

/// The `k`-th 4-neighbour of cell `c` in visiting order (west, east,
/// the row before, the row after), where the grid has one.
pub open spec fn nbr4(w: int, h: int, c: int, k: int) -> Option<int> {
    if k == 0 {
        if c % w >= 1 { Some(c - 1) } else { None }
    } else if k == 1 {
        if c % w + 1 < w { Some(c + 1) } else { None }
    } else if k == 2 {
        if c / w >= 1 { Some(c - w) } else { None }
    } else {
        if c / w + 1 < h { Some(c + w) } else { None }
    }
}

/// Cell `q[i]` is found from `q[j]`, its first 4-adjacent cell in `q`,
/// as that cell's `k`-th neighbour.
pub open spec fn found_by(w: u32, h: u32, suit: Seq<bool>, q: Seq<u32>, i: int, j: int, k: int) -> bool {
    &&& 0 <= j < i
    &&& 0 <= k < 4
    &&& nbr4(w as int, h as int, q[j] as int, k) == Some(q[i] as int)
    &&& forall|j2: int| 0 <= j2 < j ==> !#[trigger] adj4(w as int, h as int, suit, q[j2] as int, q[i] as int)
}

/// Cell `q[i]` is found from an earlier cell of `q`.
pub open spec fn is_found(w: u32, h: u32, suit: Seq<bool>, q: Seq<u32>, i: int) -> bool {
    exists|j: int, k: int| #[trigger] found_by(w, h, suit, q, i, j, k)
}

/// `q` is in breadth-first order: each cell after the first is found from
/// the first cell of `q` it is 4-adjacent to, and cells come in order of
/// the cell they are found from, then of the neighbour position.
pub open spec fn bfs_order(w: u32, h: u32, suit: Seq<bool>, q: Seq<u32>) -> bool {
    &&& forall|i: int| 1 <= i < q.len() ==> #[trigger] is_found(w, h, suit, q, i)
    &&& forall|i1: int, i2: int, j1: int, k1: int, j2: int, k2: int|
        1 <= i1 < i2 < q.len() && #[trigger] found_by(w, h, suit, q, i1, j1, k1) && #[trigger] found_by(
            w,
            h,
            suit,
            q,
            i2,
            j2,
            k2,
        ) ==> j1 < j2 || (j1 == j2 && k1 < k2)
}

/// `p` is a whole component of at least `min_cells` cells, listed from
/// its smallest cell in breadth-first order.
pub open spec fn is_patch(w: u32, h: u32, suit: Seq<bool>, min_cells: u64, p: Seq<u32>) -> bool {
    &&& p.len() > 0
    &&& p.len() >= min_cells
    &&& enumerates(w, h, suit, p, p[0] as int)
    &&& forall|x: int| #[trigger] connected(patch_graph(w, h, suit), p[0] as int, x) ==> p[0] <= x
    &&& bfs_order(w, h, suit, p)
}

proof fn lemma_patch_graph_symmetric(w: u32, h: u32, suit: Seq<bool>)
    ensures
        symmetric(patch_graph(w, h, suit)),
{
}

/// The 4-neighbours of `c`, by coordinates.
proof fn lemma_adj4_cases(w: int, h: int, suit: Seq<bool>, c: int, b: int)
    requires
        w >= 1,
        h >= 1,
        adj4(w, h, suit, c, b),
    ensures
        (c % w >= 1 && b == c - 1) || (c % w + 1 < w && b == c + 1) || (c / w >= 1 && b == c - w) || (
        c / w + 1 < h && b == c + w),
{
    lemma_cell_coords(w, h, c);
    lemma_cell_coords(w, h, b);
    assert(c == (c / w) * w + c % w);
    assert(b == (b / w) * w + b % w);
    if c / w == b / w + 1 {
        assert((c / w) * w == (b / w) * w + w) by (nonlinear_arith)
            requires
                c / w == b / w + 1,
        ;
    }
    if b / w == c / w + 1 {
        assert((b / w) * w == (c / w) * w + w) by (nonlinear_arith)
            requires
                b / w == c / w + 1,
        ;
    }
}

/// Each in-grid 4-neighbour candidate of `c` is 4-adjacent to `c` when
/// both cells are suitable.
proof fn lemma_adj4_candidate(w: int, h: int, suit: Seq<bool>, c: int, b: int)
    requires
        w >= 1,
        h >= 1,
        0 <= c < w * h,
        suit.len() == w * h,
        (c % w >= 1 && b == c - 1) || (c % w + 1 < w && b == c + 1) || (c / w >= 1 && b == c - w) || (
        c / w + 1 < h && b == c + w),
    ensures
        0 <= b < w * h,
        suit[c] && suit[b] ==> adj4(w, h, suit, c, b),
{
    lemma_cell_coords(w, h, c);
    let x = c % w;
    let y = c / w;
    if x >= 1 && b == c - 1 {
        lemma_index_coords(w, h, x - 1, y);
        assert(b == y * w + (x - 1));
    } else if x + 1 < w && b == c + 1 {
        lemma_index_coords(w, h, x + 1, y);
        assert(b == y * w + (x + 1));
    } else if y >= 1 && b == c - w {
        lemma_index_coords(w, h, x, y - 1);
        assert(b == (y - 1) * w + x) by (nonlinear_arith)
            requires
                b == c - w,
                c == y * w + x,
        ;
    } else {
        lemma_index_coords(w, h, x, y + 1);
        assert(b == (y + 1) * w + x) by (nonlinear_arith)
            requires
                b == c + w,
                c == y * w + x,
        ;
    }
}

/// Breadth-first growth of the patch of `start` over unseen suitable
/// cells; marks the patch seen and returns its cells in visiting order.
fn grow_patch(w: u32, h: u32, suitable: &[bool], seen: &mut Vec<bool>, start: u32) -> (cells: Vec<u32>)
    requires
        grid_ok(w, h),
        suitable@.len() == w * h,
        old(seen)@.len() == w * h,
        (start as int) < w * h,
        suitable@[start as int],
        !old(seen)@[start as int],
        closed(patch_graph(w, h, suitable@), |u: int| 0 <= u < w * h && old(seen)@[u]),
    ensures
        final(seen)@.len() == w * h,
        cells@.len() > 0,
        cells@[0] == start,
        enumerates(w, h, suitable@, cells@, start as int),
        forall|j: int| 0 <= j < cells@.len() ==> !old(seen)@[#[trigger] cells@[j] as int],
        forall|x: int|
            0 <= x < w * h ==> (#[trigger] final(seen)@[x] <==> (old(seen)@[x] || cells@.contains(
                x as u32,
            ))),
        closed(patch_graph(w, h, suitable@), |u: int| 0 <= u < w * h && final(seen)@[u]),
        bfs_order(w, h, suitable@, cells@),
{
    let ghost adj = patch_graph(w, h, suitable@);
    let ghost old_seen = seen@;
    let ghost n = w * h;
    let mut queue: Vec<u32> = Vec::new();
    seen.set(start as usize, true);
    queue.push(start);
    let ghost mut keys: Seq<(int, int)> = seq![(-1int, -1int)];
    proof {
        lemma_connected_refl(adj, start as int);
        lemma_patch_graph_symmetric(w, h, suitable@);
        assert(queue@ =~= seq![start]);
        assert forall|z: int| 0 <= z < n implies (#[trigger] seen@[z] <==> (old_seen[z] || queue@.contains(z as u32))) by {
            if z == start as int {
                assert(queue@[0] == start);
            } else {
                assert(seen@[z] == old_seen[z]);
                if queue@.contains(z as u32) {
                    let j = choose|j: int| 0 <= j < queue@.len() && queue@[j] == z as u32;
                    assert(j == 0);
                }
            }
        }
    }
    let mut head: usize = 0;
    while head < queue.len()
        invariant
            grid_ok(w, h),
            n == w * h,
            adj == patch_graph(w, h, suitable@),
            symmetric(adj),
            suitable@.len() == n,
            seen@.len() == n,
            (start as int) < n,
            suitable@[start as int],
            head <= queue@.len(),
            queue@.len() > 0,
            queue@[0] == start,
            queue@.no_duplicates(),
            forall|j: int| 0 <= j < queue@.len() ==> (#[trigger] queue@[j] as int) < n,
            forall|j: int| 0 <= j < queue@.len() ==> connected(adj, start as int, #[trigger] queue@[j] as int),
            forall|j: int| 0 <= j < queue@.len() ==> !old_seen[#[trigger] queue@[j] as int],
            forall|x: int| 0 <= x < n ==> (#[trigger] seen@[x] <==> (old_seen[x] || queue@.contains(x as u32))),
            closed(adj, |u: int| 0 <= u < n && old_seen[u]),
            forall|j: int, v: int|
                0 <= j < head && #[trigger] adj(queue@[j] as int, v) ==> 0 <= v < n && seen@[v],
            n <= u32::MAX,
            keys.len() == queue@.len(),
            forall|i: int| 1 <= i < queue@.len() ==> #[trigger] found_by(w, h, suitable@, queue@, i, keys[i].0, keys[i].1),
            forall|i1: int, i2: int|
                1 <= i1 < i2 < queue@.len() ==> (#[trigger] keys[i1]).0 < (#[trigger] keys[i2]).0 || (keys[i1].0 == keys[i2].0
                    && keys[i1].1 < keys[i2].1),
            forall|i: int| 1 <= i < queue@.len() ==> (#[trigger] keys[i]).0 < head,
        decreases n - head,
    {
        let c = queue[head];
        let x = c % w;
        let y = c / w;
        proof {
            lemma_cell_coords(w as int, h as int, c as int);
            lemma_distinct_cells(queue@, n);
            assert((x as int) <= (c as int)) by (nonlinear_arith)
                requires
                    (c as int) == (y as int) * (w as int) + (x as int),
                    y >= 0,
                    w >= 1,
            ;
            assert(y >= 1 ==> (c as int) >= w) by (nonlinear_arith)
                requires
                    (c as int) == (y as int) * (w as int) + (x as int),
                    x >= 0,
            ;
            assert(y + 1 < h ==> (c as int) + w < n) by (nonlinear_arith)
                requires
                    (c as int) == (y as int) * (w as int) + (x as int),
                    x < w,
                    n == (w as int) * (h as int),
            ;
        }
        let mut k: u32 = 0;
        while k < 4
            invariant
                grid_ok(w, h),
                n == w * h,
                adj == patch_graph(w, h, suitable@),
                symmetric(adj),
                suitable@.len() == n,
                seen@.len() == n,
                (start as int) < n,
                suitable@[start as int],
                head < queue@.len(),
                c == queue@[head as int],
                x == c % w,
                y == c / w,
                (c as int) < n,
                x < w,
                x <= c,
                y >= 1 ==> (c as int) >= w,
                y + 1 < h ==> (c as int) + w < n,
                n <= u32::MAX,
                k <= 4,
                queue@.len() > 0,
                queue@[0] == start,
                queue@.no_duplicates(),
                forall|j: int| 0 <= j < queue@.len() ==> (#[trigger] queue@[j] as int) < n,
                forall|j: int| 0 <= j < queue@.len() ==> connected(adj, start as int, #[trigger] queue@[j] as int),
                forall|j: int| 0 <= j < queue@.len() ==> !old_seen[#[trigger] queue@[j] as int],
                forall|x: int| 0 <= x < n ==> (#[trigger] seen@[x] <==> (old_seen[x] || queue@.contains(x as u32))),
                closed(adj, |u: int| 0 <= u < n && old_seen[u]),
                forall|j: int, v: int|
                    0 <= j < head && #[trigger] adj(queue@[j] as int, v) ==> 0 <= v < n && seen@[v],
                forall|v: int|
                    #[trigger] adj(c as int, v) && ((k > 0 && x >= 1 && v == c - 1) || (k > 1 && x + 1 < w
                        && v == c + 1) || (k > 2 && y >= 1 && v == c - w) || (k > 3 && y + 1 < h && v
                        == c + w)) ==> seen@[v],
                keys.len() == queue@.len(),
                forall|i: int| 1 <= i < queue@.len() ==> #[trigger] found_by(w, h, suitable@, queue@, i, keys[i].0, keys[i].1),
                forall|i1: int, i2: int|
                    1 <= i1 < i2 < queue@.len() ==> (#[trigger] keys[i1]).0 < (#[trigger] keys[i2]).0 || (keys[i1].0
                        == keys[i2].0 && keys[i1].1 < keys[i2].1),
                forall|i: int|
                    1 <= i < queue@.len() ==> (#[trigger] keys[i]).0 < head || (keys[i].0 == head && keys[i].1 < k),
            decreases 4 - k,
        {
            let cand: Option<u32> = if k == 0 {
                if x >= 1 { Some(c - 1) } else { None }
            } else if k == 1 {
                if x + 1 < w { Some(c + 1) } else { None }
            } else if k == 2 {
                if y >= 1 { Some(c - w) } else { None }
            } else {
                if y + 1 < h { Some(c + w) } else { None }
            };
            match cand {
                Some(nb) => {
                    proof {
                        lemma_adj4_candidate(w as int, h as int, suitable@, c as int, nb as int);
                    }
                    if suitable[nb as usize] && !seen[nb as usize] {
                        proof {
                            assert(suitable@[c as int]) by {
                                if c == start {
                                } else {
                                    let j = choose|j: int| 0 <= j < queue@.len() && queue@[j] == c;
                                    assert(connected(adj, start as int, c as int));
                                    lemma_connected_suitable(w, h, suitable@, start as int, c as int);
                                }
                            }
                            assert(adj(c as int, nb as int));
                            lemma_connected_step(adj, start as int, c as int, nb as int);
                            assert(!queue@.contains(nb));
                            assert(!old_seen[nb as int]);
                        }
                        let ghost q0 = queue@;
                        let ghost s0 = seen@;
                        seen.set(nb as usize, true);
                        queue.push(nb);
                        proof {
                            assert forall|j: int| 0 <= j < queue@.len() implies (#[trigger] queue@[j] as int) < n by {
                                if j < q0.len() { assert(queue@[j] == q0[j]); }
                            }
                            assert forall|j: int| 0 <= j < queue@.len() implies connected(adj, start as int, #[trigger] queue@[j] as int) by {
                                if j < q0.len() { assert(queue@[j] == q0[j]); }
                            }
                            assert forall|j: int| 0 <= j < queue@.len() implies !old_seen[#[trigger] queue@[j] as int] by {
                                if j < q0.len() { assert(queue@[j] == q0[j]); }
                            }
                            assert forall|i: int, j: int| 0 <= i < j < queue@.len() implies queue@[i] != queue@[j] by {
                                if j < q0.len() { assert(queue@[j] == q0[j]); assert(queue@[i] == q0[i]); }
                                else { assert(queue@[i] == q0[i]); assert(q0.contains(q0[i])); }
                            }
                            assert(queue@ == q0.push(nb));
                            assert forall|z: int| 0 <= z < n implies (#[trigger] seen@[z] <==> (old_seen[z] || queue@.contains(z as u32))) by {
                                if z == nb as int {
                                    assert(queue@[q0.len() as int] == nb);
                                } else {
                                    assert(seen@[z] == s0[z]);
                                    if queue@.contains(z as u32) {
                                        let j = choose|j: int| 0 <= j < queue@.len() && queue@[j] == z as u32;
                                        assert(j < q0.len());
                                        assert(q0[j] == z as u32);
                                    }
                                    if q0.contains(z as u32) {
                                        let j = choose|j: int| 0 <= j < q0.len() && q0[j] == z as u32;
                                        assert(queue@[j] == q0[j]);
                                    }
                                }
                            }
                            assert forall|j: int, v: int| 0 <= j < head && #[trigger] adj(queue@[j] as int, v) implies 0 <= v < n && seen@[v] by {
                                assert(queue@[j] == q0[j]);
                            }
                            // The new cell is found from the cell being visited.
                            let k0 = keys;
                            keys = keys.push((head as int, k as int));
                            assert(nbr4(w as int, h as int, c as int, k as int) == Some(nb as int));
                            assert forall|j2: int| 0 <= j2 < head implies !#[trigger] adj4(w as int, h as int, suitable@, queue@[j2] as int, queue@[q0.len() as int] as int) by {
                                assert(queue@[j2] == q0[j2]);
                                assert(queue@[q0.len() as int] == nb);
                                if adj4(w as int, h as int, suitable@, q0[j2] as int, nb as int) {
                                    assert(adj(q0[j2] as int, nb as int));
                                    assert(s0[nb as int]);
                                }
                            }
                            assert(found_by(w, h, suitable@, queue@, q0.len() as int, head as int, k as int));
                            assert forall|i: int| 1 <= i < queue@.len() implies #[trigger] found_by(w, h, suitable@, queue@, i, keys[i].0, keys[i].1) by {
                                if i < q0.len() {
                                    assert(keys[i] == k0[i]);
                                    assert(found_by(w, h, suitable@, q0, i, k0[i].0, k0[i].1));
                                    assert forall|j2: int| 0 <= j2 < k0[i].0 implies queue@[j2] == q0[j2] by {}
                                    assert(queue@[i] == q0[i]);
                                    assert(queue@[k0[i].0] == q0[k0[i].0]);
                                }
                            }
                            assert forall|i1: int, i2: int|
                                1 <= i1 < i2 < queue@.len() implies (#[trigger] keys[i1]).0 < (#[trigger] keys[i2]).0 || (keys[i1].0
                                    == keys[i2].0 && keys[i1].1 < keys[i2].1) by {
                                assert(keys[i1] == k0[i1]);
                                if i2 < q0.len() {
                                    assert(keys[i2] == k0[i2]);
                                }
                            }
                            assert forall|i: int|
                                1 <= i < queue@.len() implies (#[trigger] keys[i]).0 < head || (keys[i].0 == head && keys[i].1 < k + 1) by {
                                if i < q0.len() {
                                    assert(keys[i] == k0[i]);
                                }
                            }
                        }
                    }
                },
                None => {},
            }
            k = k + 1;
        }
        proof {
            assert forall|v: int| #[trigger] adj(c as int, v) implies 0 <= v < n && seen@[v] by {
                lemma_adj4_cases(w as int, h as int, suitable@, c as int, v);
            }
        }
        head = head + 1;
    }
    proof {
        let fs = |u: int| 0 <= u < n && seen@[u];
        assert forall|u: int, v: int| fs(u) && #[trigger] adj(u, v) implies fs(v) by {
            if !old_seen[u] {
                assert(queue@.contains(u as u32));
                let j = choose|j: int| 0 <= j < queue@.len() && queue@[j] == u as u32;
                assert(adj(queue@[j] as int, v));
            }
        }
        assert forall|z: int| 0 <= z < n implies (queue@.contains(z as u32) <==> connected(adj, start as int, z)) by {
            if connected(adj, start as int, z) {
                lemma_closed_reach(adj, fs, start as int, z);
                if old_seen[z] {
                    lemma_connected_sym(adj, start as int, z);
                    lemma_closed_reach(adj, |u: int| 0 <= u < n && old_seen[u], z, start as int);
                }
            }
            if queue@.contains(z as u32) {
                let j = choose|j: int| 0 <= j < queue@.len() && queue@[j] == z as u32;
                assert(connected(adj, start as int, queue@[j] as int));
            }
        }
        assert forall|m: int| 0 <= m < queue@.len() implies suitable@[#[trigger] queue@[m] as int] by {
            assert(connected(adj, start as int, queue@[m] as int));
            lemma_connected_suitable(w, h, suitable@, start as int, queue@[m] as int);
        }
        assert forall|i: int| 1 <= i < queue@.len() implies #[trigger] is_found(w, h, suitable@, queue@, i) by {
            assert(found_by(w, h, suitable@, queue@, i, keys[i].0, keys[i].1));
        }
        assert forall|i1: int, i2: int, j1: int, k1: int, j2: int, k2: int|
            1 <= i1 < i2 < queue@.len() && #[trigger] found_by(w, h, suitable@, queue@, i1, j1, k1) && #[trigger] found_by(
                w,
                h,
                suitable@,
                queue@,
                i2,
                j2,
                k2,
            ) implies j1 < j2 || (j1 == j2 && k1 < k2) by {
            lemma_found_unique(w, h, suitable@, queue@, i1, j1, k1, keys[i1].0, keys[i1].1);
            lemma_found_unique(w, h, suitable@, queue@, i2, j2, k2, keys[i2].0, keys[i2].1);
            assert(keys[i1].0 < keys[i2].0 || (keys[i1].0 == keys[i2].0 && keys[i1].1 < keys[i2].1));
        }
        assert(bfs_order(w, h, suitable@, queue@));
    }
    queue
}

/// A cell of a list of suitable cells is found from one cell, as one of
/// its neighbours.
proof fn lemma_found_unique(w: u32, h: u32, suit: Seq<bool>, q: Seq<u32>, i: int, j: int, k: int, j2: int, k2: int)
    requires
        grid_ok(w, h),
        suit.len() == w * h,
        forall|m: int| 0 <= m < q.len() ==> (#[trigger] q[m] as int) < w * h,
        forall|m: int| 0 <= m < q.len() ==> suit[#[trigger] q[m] as int],
        0 <= i < q.len(),
        found_by(w, h, suit, q, i, j, k),
        found_by(w, h, suit, q, i, j2, k2),
    ensures
        j == j2,
        k == k2,
{
    let wi = w as int;
    let hi = h as int;
    assert(q[j] as int >= 0 && q[j2] as int >= 0);
    lemma_adj4_candidate(wi, hi, suit, q[j] as int, q[i] as int);
    lemma_adj4_candidate(wi, hi, suit, q[j2] as int, q[i] as int);
    if j < j2 {
        assert(!adj4(wi, hi, suit, q[j] as int, q[i] as int));
    } else if j2 < j {
        assert(!adj4(wi, hi, suit, q[j2] as int, q[i] as int));
    }
    let c = q[j] as int;
    lemma_cell_coords(wi, hi, c);
}

/// Cells connected to a suitable cell are suitable (walks step between
/// suitable cells only).
proof fn lemma_connected_suitable(w: u32, h: u32, suit: Seq<bool>, a: int, b: int)
    requires
        suit.len() == w * h,
        0 <= a < w * h,
        suit[a],
        connected(patch_graph(w, h, suit), a, b),
    ensures
        suit[b],
        a != b ==> 0 <= b < w * h,
{
    let adj = patch_graph(w, h, suit);
    let s = |u: int| (0 <= u < w * h && suit[u]) || u == a;
    assert(closed(adj, s));
    lemma_closed_reach(adj, s, a, b);
}

/// `p` ranks before `q`: larger first, ties by smaller first cell.
pub open spec fn ranked_before(p: Seq<u32>, q: Seq<u32>) -> bool {
    p.len() > q.len() || (p.len() == q.len() && p[0] < q[0])
}

/// `p` is one of the lists of `ps`.
pub open spec fn listed_in(p: Seq<u32>, ps: Seq<Vec<u32>>) -> bool {
    exists|j: int| 0 <= j < ps.len() && (#[trigger] ps[j])@ == p
}

/// The rank key of patch number `j`: larger patches first, then earlier
/// patches.
pub open spec fn rank_key(len: nat, j: int) -> int {
    (u32::MAX - len) * 0x1_0000_0000 + j
}

fn copy_cells(v: &Vec<u32>) -> (r: Vec<u32>)
    ensures
        r@ == v@,
{
    let mut r: Vec<u32> = Vec::new();
    let mut i: usize = 0;
    while i < v.len()
        invariant
            i <= v@.len(),
            r@ == v@.take(i as int),
        decreases v@.len() - i,
    {
        r.push(v[i]);
        proof {
            assert(v@.take(i as int + 1) =~= v@.take(i as int).push(v@[i as int]));
        }
        i = i + 1;
    }
    proof {
        assert(v@.take(v@.len() as int) =~= v@);
    }
    r
}

proof fn lemma_rank_key(len: nat, j: int)
    requires
        len <= u32::MAX,
        0 <= j <= u32::MAX,
    ensures
        0 <= rank_key(len, j) <= u64::MAX,
        rank_key(len, j) % 0x1_0000_0000 == j,
{
    assert(0 <= rank_key(len, j) <= u64::MAX) by (nonlinear_arith)
        requires
            len <= u32::MAX,
            0 <= j <= u32::MAX,
    ;
    vstd::arithmetic::div_mod::lemma_fundamental_div_mod_converse(
        rank_key(len, j),
        0x1_0000_0000,
        u32::MAX - len,
        j,
    );
}

proof fn lemma_rank_key_order(la: nat, ia: int, lb: nat, ib: int)
    requires
        la <= u32::MAX,
        lb <= u32::MAX,
        0 <= ia <= u32::MAX,
        0 <= ib <= u32::MAX,
        rank_key(la, ia) < rank_key(lb, ib),
    ensures
        la > lb || (la == lb && ia < ib),
{
    if la < lb {
        assert((u32::MAX - la) * 0x1_0000_0000 >= (u32::MAX - lb) * 0x1_0000_0000 + 0x1_0000_0000) by (nonlinear_arith)
            requires
                la < lb,
        ;
    } else if la == lb {
    }
}

/// A sorted permutation of distinct keys has no repeated key, and each
/// position holds one of the input keys.
proof fn lemma_sorted_keys(orig: Seq<u64>, keys: Seq<u64>)
    requires
        orig.no_duplicates(),
        keys.to_multiset() == orig.to_multiset(),
    ensures
        keys.no_duplicates(),
        keys.len() == orig.len(),
        forall|x: u64| keys.contains(x) <==> orig.contains(x),
{
    orig.lemma_multiset_has_no_duplicates();
    keys.to_multiset_ensures();
    orig.to_multiset_ensures();
    assert forall|x: u64| keys.to_multiset().contains(x) implies keys.to_multiset().count(x) == 1 by {}
    keys.lemma_multiset_has_no_duplicates_conv();
    assert forall|x: u64| keys.contains(x) <==> orig.contains(x) by {
        assert(keys.to_multiset().count(x) == orig.to_multiset().count(x));
        if keys.contains(x) {
            assert(keys.to_multiset().count(x) > 0);
        }
        if orig.contains(x) {
            assert(orig.to_multiset().count(x) > 0);
        }
    }
}

/// Order patches (given in ascending first-cell order) largest first,
/// ties by first cell.
fn rank_patches(found: &Vec<Vec<u32>>) -> (out: Vec<Vec<u32>>)
    requires
        found@.len() <= u32::MAX,
        forall|k: int| 0 <= k < found@.len() ==> (#[trigger] found@[k])@.len() > 0,
        forall|k: int| 0 <= k < found@.len() ==> (#[trigger] found@[k])@.len() <= u32::MAX,
        forall|k: int, l: int| 0 <= k < l < found@.len() ==> found@[k]@[0] < found@[l]@[0],
    ensures
        out@.len() == found@.len(),
        forall|k: int| 0 <= k < out@.len() ==> listed_in((#[trigger] out@[k])@, found@),
        forall|j: int| 0 <= j < found@.len() ==> listed_in((#[trigger] found@[j])@, out@),
        forall|k: int, l: int| 0 <= k < l < out@.len() ==> ranked_before(out@[k]@, out@[l]@),
{
    let mut keys: Vec<u64> = Vec::new();
    let mut j: usize = 0;
    while j < found.len()
        invariant
            j <= found@.len(),
            found@.len() <= u32::MAX,
            forall|k: int| 0 <= k < found@.len() ==> (#[trigger] found@[k])@.len() <= u32::MAX,
            keys@.len() == j,
            forall|k: int| 0 <= k < j ==> #[trigger] keys@[k] == rank_key(found@[k]@.len(), k),
        decreases found@.len() - j,
    {
        let len = found[j].len() as u64;
        proof {
            lemma_rank_key(len as nat, j as int);
        }
        let key: u64 = (0xFFFF_FFFFu64 - len) * 0x1_0000_0000u64 + j as u64;
        keys.push(key);
        j = j + 1;
    }
    let ghost orig = keys@;
    proof {
        assert forall|a: int, b: int| 0 <= a < orig.len() && 0 <= b < orig.len() && a != b implies orig[a] != orig[b] by {
            lemma_rank_key(found@[a]@.len(), a);
            lemma_rank_key(found@[b]@.len(), b);
        }
    }
    sort_u64(&mut keys);
    proof {
        lemma_sorted_keys(orig, keys@);
    }
    let mut out: Vec<Vec<u32>> = Vec::new();
    let mut k: usize = 0;
    while k < keys.len()
        invariant
            k <= keys@.len(),
            keys@.len() == found@.len(),
            forall|x: u64| keys@.contains(x) <==> orig.contains(x),
            orig.len() == found@.len(),
            forall|i: int| 0 <= i < orig.len() ==> #[trigger] orig[i] == rank_key(found@[i]@.len(), i),
            found@.len() <= u32::MAX,
            forall|i: int| 0 <= i < found@.len() ==> (#[trigger] found@[i])@.len() <= u32::MAX,
            out@.len() == k,
            forall|i: int| 0 <= i < k ==> (#[trigger] out@[i])@ == found@[(keys@[i] % 0x1_0000_0000) as int]@,
        decreases keys@.len() - k,
    {
        proof {
            assert(keys@.contains(keys@[k as int]));
            assert(orig.contains(keys@[k as int]));
            let i = choose|i: int| 0 <= i < orig.len() && orig[i] == keys@[k as int];
            lemma_rank_key(found@[i]@.len(), i);
        }
        let idx = (keys[k] % 0x1_0000_0000u64) as usize;
        let cells = copy_cells(&found[idx]);
        out.push(cells);
        k = k + 1;
    }
    proof {
        lemma_ranked_from(found@, orig, keys@, out@);
        lemma_ranked_onto(found@, orig, keys@, out@);
        lemma_ranked_order(found@, orig, keys@, out@);
    }
    out
}

proof fn lemma_ranked_from(found: Seq<Vec<u32>>, orig: Seq<u64>, keys: Seq<u64>, out: Seq<Vec<u32>>)
    requires
        found.len() <= u32::MAX,
        forall|k: int| 0 <= k < found.len() ==> (#[trigger] found[k])@.len() <= u32::MAX,
        forall|k: int, l: int| 0 <= k < l < found.len() ==> found[k]@[0] < found[l]@[0],
        orig.len() == found.len(),
        forall|i: int| 0 <= i < orig.len() ==> #[trigger] orig[i] == rank_key(found[i]@.len(), i),
        keys.len() == found.len(),
        keys.no_duplicates(),
        sorted_u64(keys),
        forall|x: u64| keys.contains(x) <==> orig.contains(x),
        out.len() == keys.len(),
        forall|i: int| 0 <= i < out.len() ==> (#[trigger] out[i])@ == found[(keys[i] % 0x1_0000_0000) as int]@,
    ensures
        forall|k: int| 0 <= k < out.len() ==> listed_in((#[trigger] out[k])@, found),
{
    assert forall|a: int| 0 <= a < out.len() implies listed_in((#[trigger] out[a])@, found) by {
        assert(keys.contains(keys[a]));
        assert(orig.contains(keys[a]));
        let i = choose|i: int| 0 <= i < orig.len() && orig[i] == keys[a];
        lemma_rank_key(found[i]@.len(), i);
        assert(out[a]@ == found[i]@);
    }
}

proof fn lemma_ranked_onto(found: Seq<Vec<u32>>, orig: Seq<u64>, keys: Seq<u64>, out: Seq<Vec<u32>>)
    requires
        found.len() <= u32::MAX,
        forall|k: int| 0 <= k < found.len() ==> (#[trigger] found[k])@.len() <= u32::MAX,
        forall|k: int, l: int| 0 <= k < l < found.len() ==> found[k]@[0] < found[l]@[0],
        orig.len() == found.len(),
        forall|i: int| 0 <= i < orig.len() ==> #[trigger] orig[i] == rank_key(found[i]@.len(), i),
        keys.len() == found.len(),
        keys.no_duplicates(),
        sorted_u64(keys),
        forall|x: u64| keys.contains(x) <==> orig.contains(x),
        out.len() == keys.len(),
        forall|i: int| 0 <= i < out.len() ==> (#[trigger] out[i])@ == found[(keys[i] % 0x1_0000_0000) as int]@,
    ensures
        forall|j: int| 0 <= j < found.len() ==> listed_in((#[trigger] found[j])@, out),
{
    assert forall|j: int| 0 <= j < found.len() implies listed_in((#[trigger] found[j])@, out) by {
        assert(orig.contains(orig[j]));
        assert(keys.contains(orig[j]));
        let a = choose|a: int| 0 <= a < keys.len() && keys[a] == orig[j];
        lemma_rank_key(found[j]@.len(), j);
        assert(out[a]@ == found[j]@);
    }
}

proof fn lemma_ranked_order(found: Seq<Vec<u32>>, orig: Seq<u64>, keys: Seq<u64>, out: Seq<Vec<u32>>)
    requires
        found.len() <= u32::MAX,
        forall|k: int| 0 <= k < found.len() ==> (#[trigger] found[k])@.len() <= u32::MAX,
        forall|k: int, l: int| 0 <= k < l < found.len() ==> found[k]@[0] < found[l]@[0],
        orig.len() == found.len(),
        forall|i: int| 0 <= i < orig.len() ==> #[trigger] orig[i] == rank_key(found[i]@.len(), i),
        keys.len() == found.len(),
        keys.no_duplicates(),
        sorted_u64(keys),
        forall|x: u64| keys.contains(x) <==> orig.contains(x),
        out.len() == keys.len(),
        forall|i: int| 0 <= i < out.len() ==> (#[trigger] out[i])@ == found[(keys[i] % 0x1_0000_0000) as int]@,
    ensures
        forall|k: int, l: int| 0 <= k < l < out.len() ==> ranked_before(out[k]@, out[l]@),
{
    assert forall|a: int, b: int| 0 <= a < b < out.len() implies ranked_before(out[a]@, out[b]@) by {
        assert(keys.contains(keys[a]));
        assert(keys.contains(keys[b]));
        assert(orig.contains(keys[a]));
        assert(orig.contains(keys[b]));
        let ia = choose|i: int| 0 <= i < orig.len() && orig[i] == keys[a];
        let ib = choose|i: int| 0 <= i < orig.len() && orig[i] == keys[b];
        lemma_rank_key(found[ia]@.len(), ia);
        lemma_rank_key(found[ib]@.len(), ib);
        assert(keys[a] != keys[b]);
        assert(keys[a] < keys[b]);
        lemma_rank_key_order(found[ia]@.len(), ia, found[ib]@.len(), ib);
        assert(out[a]@ == found[ia]@);
        assert(out[b]@ == found[ib]@);
        if found[ia]@.len() == found[ib]@.len() {
            assert(found[ia]@[0] < found[ib]@[0]);
        }
    }
}

/// [`extract_patches`] on slices of exactly `w × h` entries.
fn extract_patches_in_grid(w: u32, h: u32, suitable: &[bool], min_cells: u64) -> (patches: Vec<Vec<u32>>)
    requires
        w * h <= u32::MAX,
        suitable@.len() == w * h,
    ensures
        forall|k: int|
            0 <= k < patches@.len() ==> is_patch(w, h, suitable@, min_cells, #[trigger] patches@[k]@),
        forall|k: int, l: int| 0 <= k < l < patches@.len() ==> ranked_before(patches@[k]@, patches@[l]@),
        forall|k: int, l: int, c: u32|
            0 <= k < l < patches@.len() ==> !(#[trigger] patches@[k]@.contains(c)
                && #[trigger] patches@[l]@.contains(c)),
        forall|c: int|
            0 <= c < w * h && #[trigger] suitable@[c] ==> ((exists|k: int|
                0 <= k < patches@.len() && (#[trigger] patches@[k])@.contains(c as u32))
                <==> !small_component(w, h, suitable@, min_cells, c)),
{
    if w == 0 || h == 0 {
        proof {
            assert(w * h == 0) by (nonlinear_arith)
                requires
                    w == 0 || h == 0,
            ;
        }
        return Vec::new();
    }
    let n: u32 = w * h;
    let ghost adj = patch_graph(w, h, suitable@);
    let mut seen: Vec<bool> = Vec::new();
    let mut i: u32 = 0;
    while i < n
        invariant
            i <= n,
            seen@.len() == i,
            forall|x: int| 0 <= x < i ==> !#[trigger] seen@[x],
        decreases n - i,
    {
        seen.push(false);
        i = i + 1;
    }
    proof {
        lemma_patch_graph_symmetric(w, h, suitable@);
    }
    let mut found: Vec<Vec<u32>> = Vec::new();
    let mut start: u32 = 0;
    while start < n
        invariant
            grid_ok(w, h),
            n == w * h,
            adj == patch_graph(w, h, suitable@),
            symmetric(adj),
            suitable@.len() == n,
            seen@.len() == n,
            start <= n,
            closed(adj, |u: int| 0 <= u < n && seen@[u]),
            forall|d: int| 0 <= d < start && #[trigger] suitable@[d] ==> seen@[d],
            forall|k: int| 0 <= k < found@.len() ==> is_patch(w, h, suitable@, min_cells, #[trigger] found@[k]@),
            forall|k: int| 0 <= k < found@.len() ==> (#[trigger] found@[k])@[0] < start,
            forall|k: int, l: int| 0 <= k < l < found@.len() ==> found@[k]@[0] < found@[l]@[0],
            forall|c: int|
                0 <= c < n && #[trigger] seen@[c] ==> (exists|k: int|
                    0 <= k < found@.len() && (#[trigger] found@[k])@.contains(c as u32))
                    || small_component(w, h, suitable@, min_cells, c),
        decreases n - start,
    {
        if suitable[start as usize] && !seen[start as usize] {
            let ghost old_seen = seen@;
            let ghost old_found = found@;
            let cells = grow_patch(w, h, suitable, &mut seen, start);
            proof {
                assert forall|x: int| #[trigger] connected(adj, start as int, x) implies start <= x by {
                    if x < start {
                        lemma_connected_suitable(w, h, suitable@, start as int, x);
                        if x != start as int {
                            assert(old_seen[x]);
                            lemma_connected_sym(adj, start as int, x);
                            lemma_closed_reach(adj, |u: int| 0 <= u < n && old_seen[u], x, start as int);
                        }
                    }
                }
                lemma_distinct_cells(cells@, n as int);
            }
            if cells.len() as u64 >= min_cells {
                found.push(cells);
                proof {
                    assert(found@[found@.len() - 1]@ == cells@);
                    assert forall|k: int| 0 <= k < found@.len() implies is_patch(w, h, suitable@, min_cells, #[trigger] found@[k]@) by {
                        if k < old_found.len() { assert(found@[k] == old_found[k]); }
                    }
                    assert forall|k: int| 0 <= k < found@.len() implies (#[trigger] found@[k])@[0] < start + 1 by {
                        if k < old_found.len() { assert(found@[k] == old_found[k]); }
                    }
                    assert forall|k: int, l: int| 0 <= k < l < found@.len() implies found@[k]@[0] < found@[l]@[0] by {
                        assert(found@[k] == old_found[k]);
                        if l < old_found.len() { assert(found@[l] == old_found[l]); }
                    }
                    assert forall|c: int| 0 <= c < n && #[trigger] seen@[c] implies (exists|k: int|
                        0 <= k < found@.len() && (#[trigger] found@[k])@.contains(c as u32))
                        || small_component(w, h, suitable@, min_cells, c) by {
                        if old_seen[c] {
                            if exists|k: int| 0 <= k < old_found.len() && (#[trigger] old_found[k])@.contains(c as u32) {
                                let k = choose|k: int| 0 <= k < old_found.len() && (#[trigger] old_found[k])@.contains(c as u32);
                                assert(found@[k] == old_found[k]);
                            }
                        } else {
                            assert(found@[old_found.len() as int]@.contains(c as u32));
                        }
                    }
                }
            } else {
                proof {
                    assert forall|c: int| 0 <= c < n && #[trigger] seen@[c] implies (exists|k: int|
                        0 <= k < found@.len() && (#[trigger] found@[k])@.contains(c as u32))
                        || small_component(w, h, suitable@, min_cells, c) by {
                        if !old_seen[c] {
                            assert(cells@.contains(c as u32));
                            assert(connected(adj, start as int, c));
                            lemma_same_component(adj, start as int, c);
                            assert forall|x: int| 0 <= x < w * h implies (cells@.contains(x as u32) <==> connected(adj, c, x)) by {
                                assert(component(adj, start as int).contains(x) == connected(adj, start as int, x));
                                assert(component(adj, c).contains(x) == connected(adj, c, x));
                            }
                            assert(enumerates(w, h, suitable@, cells@, c));
                        }
                    }
                }
            }
        }
        start = start + 1;
    }
    proof {
        assert forall|k: int| 0 <= k < found@.len() implies (#[trigger] found@[k])@.len() <= u32::MAX by {
            lemma_distinct_cells(found@[k]@, n as int);
        }
        assert(found@.len() <= u32::MAX) by {
            let firsts = found@.map_values(|p: Vec<u32>| p@[0]);
            assert forall|i: int| 0 <= i < firsts.len() implies (#[trigger] firsts[i] as int) < n by {}
            assert forall|i: int, j: int| 0 <= i < j < firsts.len() implies firsts[i] != firsts[j] by {}
            lemma_distinct_cells(firsts, n as int);
        }
    }
    let patches = rank_patches(&found);
    proof {
        assert forall|k: int| 0 <= k < patches@.len() implies is_patch(w, h, suitable@, min_cells, #[trigger] patches@[k]@) by {
            assert(listed_in(patches@[k]@, found@));
            let j = choose|j: int| 0 <= j < found@.len() && (#[trigger] found@[j])@ == patches@[k]@;
            assert(is_patch(w, h, suitable@, min_cells, found@[j]@));
        }
        assert forall|c: int| 0 <= c < w * h && #[trigger] suitable@[c] implies (exists|k: int|
            0 <= k < patches@.len() && (#[trigger] patches@[k])@.contains(c as u32))
            || small_component(w, h, suitable@, min_cells, c) by {
            assert(seen@[c]);
            if exists|k: int| 0 <= k < found@.len() && (#[trigger] found@[k])@.contains(c as u32) {
                let j = choose|j: int| 0 <= j < found@.len() && (#[trigger] found@[j])@.contains(c as u32);
                assert(listed_in(found@[j]@, patches@));
                let k = choose|k: int| 0 <= k < patches@.len() && (#[trigger] patches@[k])@ == found@[j]@;
                assert(patches@[k]@.contains(c as u32));
            }
        }
        let ps = patches@.map_values(|v: Vec<u32>| v@);
        assert forall|k: int| 0 <= k < ps.len() implies #[trigger] ps[k] == patches@[k]@ by {}
        assert forall|k: int| 0 <= k < ps.len() implies is_patch(w, h, suitable@, min_cells, #[trigger] ps[k]) by {
            assert(ps[k] == patches@[k]@);
        }
        assert forall|k: int, l: int| 0 <= k < l < ps.len() implies ranked_before(ps[k], ps[l]) by {
            assert(ps[k] == patches@[k]@ && ps[l] == patches@[l]@);
        }
        assert forall|c: int| 0 <= c < w * h && #[trigger] suitable@[c] implies (exists|k: int|
            0 <= k < ps.len() && (#[trigger] ps[k]).contains(c as u32))
            || small_component(w, h, suitable@, min_cells, c) by {
            if exists|k: int| 0 <= k < patches@.len() && (#[trigger] patches@[k])@.contains(c as u32) {
                let k = choose|k: int| 0 <= k < patches@.len() && (#[trigger] patches@[k])@.contains(c as u32);
                assert(ps[k].contains(c as u32));
            }
        }
        lemma_patches_partition(w, h, suitable@, min_cells, ps);
        assert forall|c: int| 0 <= c < w * h && #[trigger] suitable@[c] implies ((exists|k: int|
            0 <= k < patches@.len() && (#[trigger] patches@[k])@.contains(c as u32))
            <==> !small_component(w, h, suitable@, min_cells, c)) by {
            if exists|k: int| 0 <= k < ps.len() && (#[trigger] ps[k]).contains(c as u32) {
                let k = choose|k: int| 0 <= k < ps.len() && (#[trigger] ps[k]).contains(c as u32);
                assert(patches@[k]@.contains(c as u32));
            }
            if exists|k: int| 0 <= k < patches@.len() && (#[trigger] patches@[k])@.contains(c as u32) {
                let k = choose|k: int| 0 <= k < patches@.len() && (#[trigger] patches@[k])@.contains(c as u32);
                assert(ps[k].contains(c as u32));
            }
        }
        assert forall|k: int, l: int, c: u32|
            0 <= k < l < patches@.len() implies !(#[trigger] patches@[k]@.contains(c)
                && #[trigger] patches@[l]@.contains(c)) by {
            assert(ps[k] == patches@[k]@ && ps[l] == patches@[l]@);
        }
    }
    patches
}

/// 4-connected components of the suitable cells, in scan order of their
/// first cell; only components of at least `min_cells` cells are kept,
/// ranked largest first with ties broken by first cell. Each patch lists
/// its cells breadth first from its smallest.
pub fn extract_patches(w: u32, h: u32, suitable: &[bool], min_cells: u64) -> (patches: Vec<Vec<u32>>)
    requires
        w * h <= u32::MAX,
        suitable@.len() >= w * h,
    ensures
        forall|k: int|
            0 <= k < patches@.len() ==> is_patch(w, h, on_grid(w, h, suitable@), min_cells, #[trigger] patches@[k]@),
        forall|k: int, l: int| 0 <= k < l < patches@.len() ==> ranked_before(patches@[k]@, patches@[l]@),
        forall|k: int, l: int, c: u32|
            0 <= k < l < patches@.len() ==> !(#[trigger] patches@[k]@.contains(c)
                && #[trigger] patches@[l]@.contains(c)),
        forall|c: int|
            0 <= c < w * h && #[trigger] on_grid(w, h, suitable@)[c] ==> ((exists|k: int|
                0 <= k < patches@.len() && (#[trigger] patches@[k])@.contains(c as u32))
                <==> !small_component(w, h, on_grid(w, h, suitable@), min_cells, c)),
{
    let suitable = grid_part(w, h, suitable);
    extract_patches_in_grid(w, h, suitable, min_cells)
}

} // verus!
