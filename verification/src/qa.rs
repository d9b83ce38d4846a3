//! Inspection diagnostics over the flow topology: the lowest crossing of
//! each divide between two land basins, and the main stem of a river
//! walked upstream from its mouth.

use vstd::prelude::*;

use crate::grid::{adjacent8, grid_ok, grid_part, on_grid, lemma_adjacent_in_neighbors, neighbors, neighbors8};

verus! {

/// Land cell `i` and its land D8 neighbour `nb` lie in different basins,
/// whose labels are `a < b`.
pub open spec fn crosses(w: u32, h: u32, basin: Seq<u32>, land: Seq<bool>, i: int, nb: int, a: u32, b: u32) -> bool {
    &&& adjacent8(w as int, h as int, i, nb)
    &&& land[i]
    &&& land[nb]
    &&& basin[i] != basin[nb]
    &&& a == if basin[i] < basin[nb] { basin[i] } else { basin[nb] }
    &&& b == if basin[i] < basin[nb] { basin[nb] } else { basin[i] }
}

/// Land cell `i` lies on the divide between basins `a` and `b`.
pub open spec fn on_divide(w: u32, h: u32, basin: Seq<u32>, land: Seq<bool>, i: int, a: u32, b: u32) -> bool {
    exists|nb: int| #[trigger] crosses(w, h, basin, land, i, nb, a, b)
}

/// Cell `i` comes before cell `j` in the order by height key, then by
/// index.
pub open spec fn lower(keys: Seq<i64>, i: int, j: int) -> bool {
    keys[i] < keys[j] || (keys[i] == keys[j] && i < j)
}

/// `c` is the lowest cell, by height key then index, on the divide
/// between some two basins.
pub open spec fn is_col(w: u32, h: u32, keys: Seq<i64>, basin: Seq<u32>, land: Seq<bool>, c: int) -> bool {
    exists|a: u32, b: u32|
        #[trigger] on_divide(w, h, basin, land, c, a, b) && forall|i: int|
            0 <= i < w * h && i != c && #[trigger] on_divide(w, h, basin, land, i, a, b) ==> lower(keys, c, i)
}

/// The divide cells met so far: all cells before `i`, and those of
/// cell `i` found through its first `t` neighbours.
spec fn seen(w: u32, h: u32, basin: Seq<u32>, land: Seq<bool>, i: int, t: int, x: int, a: u32, b: u32) -> bool {
    ||| (0 <= x < i && on_divide(w, h, basin, land, x, a, b))
    ||| (x == i && exists|s: int|
        0 <= s < t && #[trigger] crosses(w, h, basin, land, i, neighbors8(w as int, h as int, i)[s] as int, a, b))
}

/// The table of divides: for each basin pair `(ka[e], kb[e])` met so far,
/// the lowest cell `best[e]` met on it.
spec fn table_ok(
    w: u32,
    h: u32,
    keys: Seq<i64>,
    basin: Seq<u32>,
    land: Seq<bool>,
    i: int,
    t: int,
    ka: Seq<u32>,
    kb: Seq<u32>,
    best: Seq<u32>,
) -> bool {
    &&& ka.len() == kb.len() == best.len()
    &&& forall|e1: int, e2: int|
        0 <= e1 < e2 < ka.len() ==> (ka[e1] != ka[e2] || kb[e1] != kb[e2])
    &&& forall|e: int| 0 <= e < ka.len() ==> seen(w, h, basin, land, i, t, #[trigger] best[e] as int, ka[e], kb[e])
    &&& forall|e: int, x: int|
        0 <= e < ka.len() && x != best[e] && #[trigger] seen(w, h, basin, land, i, t, x, ka[e], kb[e]) ==> lower(
            keys,
            best[e] as int,
            x,
        )
    &&& forall|x: int, a: u32, b: u32| #[trigger]
        seen(w, h, basin, land, i, t, x, a, b) ==> exists|e: int| 0 <= e < ka.len() && ka[e] == a && kb[e] == b
}

/// [`basin_boundary_cols`] on slices of exactly `w × h` entries.
#[verifier::rlimit(40)]
#[verifier::spinoff_prover]
fn basin_boundary_cols_in_grid(w: u32, h: u32, height_keys: &[i64], basin: &[u32], land: &[bool]) -> (cols: Vec<u32>)
    requires
        w * h <= u32::MAX,
        height_keys@.len() == w * h,
        basin@.len() == w * h,
        land@.len() == w * h,
    ensures
        forall|s: int, t: int| 0 <= s < t < cols@.len() ==> cols@[s] < cols@[t],
        forall|c: u32| cols@.contains(c) <==> (c < w * h && is_col(w, h, height_keys@, basin@, land@, c as int)),
{
    if w == 0 || h == 0 {
        proof {
            assert(w * h == 0) by (nonlinear_arith)
                requires
                    w == 0 || h == 0,
            ;
        }
        return Vec::new();
    }
    let n = w * h;
    let ghost hk = height_keys@;
    let ghost bs = basin@;
    let ghost ld = land@;
    let mut ka: Vec<u32> = Vec::new();
    let mut kb: Vec<u32> = Vec::new();
    let mut best: Vec<u32> = Vec::new();
    let mut i: u32 = 0;
    while i < n
        invariant
            grid_ok(w, h),
            n == w * h,
            hk == height_keys@,
            bs == basin@,
            ld == land@,
            hk.len() == n,
            bs.len() == n,
            ld.len() == n,
            i <= n,
            forall|e: int| 0 <= e < best@.len() ==> #[trigger] best@[e] < i,
            table_ok(w, h, hk, bs, ld, i as int, 0, ka@, kb@, best@),
        decreases n - i,
    {
        let nbs = neighbors(w, h, i);
        let mut t: usize = 0;
        while t < nbs.len()
            invariant
                grid_ok(w, h),
                n == w * h,
                hk == height_keys@,
                bs == basin@,
                ld == land@,
                hk.len() == n,
                bs.len() == n,
                ld.len() == n,
                i < n,
                nbs@ == neighbors8(w as int, h as int, i as int),
                forall|j: int| 0 <= j < nbs@.len() ==> adjacent8(w as int, h as int, i as int, #[trigger] nbs@[j] as int),
                t <= nbs@.len(),
                forall|e: int| 0 <= e < best@.len() ==> #[trigger] best@[e] <= i,
                table_ok(w, h, hk, bs, ld, i as int, t as int, ka@, kb@, best@),
            decreases nbs@.len() - t,
        {
            let nb = nbs[t];
            proof {
                assert(adjacent8(w as int, h as int, i as int, nb as int));
            }
            if land[i as usize] && land[nb as usize] && basin[i as usize] != basin[nb as usize] {
                let bi = basin[i as usize];
                let bn = basin[nb as usize];
                let a = if bi < bn { bi } else { bn };
                let b = if bi < bn { bn } else { bi };
                proof {
                    assert(crosses(w, h, bs, ld, i as int, nb as int, a, b));
                }
                let ghost ka0 = ka@;
                let ghost kb0 = kb@;
                let ghost best0 = best@;
                let mut e: usize = 0;
                let mut found = false;
                while e < ka.len()
                    invariant_except_break
                        !found,
                        forall|f: int| 0 <= f < e ==> !(ka@[f] == a && kb@[f] == b),
                    invariant
                        ka@ == ka0,
                        kb@ == kb0,
                        ka0.len() == kb0.len(),
                        e <= ka@.len(),
                    ensures
                        found ==> e < ka@.len() && ka@[e as int] == a && kb@[e as int] == b,
                        !found ==> forall|f: int| 0 <= f < ka@.len() ==> !(ka@[f] == a && kb@[f] == b),
                    decreases ka@.len() - e,
                {
                    if ka[e] == a && kb[e] == b {
                        found = true;
                        break;
                    }
                    e = e + 1;
                }
                proof {
                    // One step changes what is seen only on the pair `(a, b)`.
                    assert forall|x: int, a2: u32, b2: u32|
                        #[trigger] seen(w, h, bs, ld, i as int, t + 1, x, a2, b2) <==> (seen(w, h, bs, ld, i as int, t as int, x, a2, b2)
                            || (x == i && a2 == a && b2 == b)) by {
                        if x == i && seen(w, h, bs, ld, i as int, t + 1, x, a2, b2) {
                            let s = choose|s: int|
                                0 <= s < t + 1 && #[trigger] crosses(w, h, bs, ld, i as int, neighbors8(w as int, h as int, i as int)[s] as int, a2, b2);
                            if s == t {
                                assert(a2 == a && b2 == b);
                            }
                        }
                        if x == i && a2 == a && b2 == b {
                            assert(crosses(w, h, bs, ld, i as int, neighbors8(w as int, h as int, i as int)[t as int] as int, a2, b2));
                        }
                    }
                }
                if found {
                    let cur = best[e];
                    let ki = height_keys[i as usize];
                    let kc = height_keys[cur as usize];
                    if ki < kc || (ki == kc && i < cur) {
                        best.set(e, i);
                    }
                    proof {
                        assert forall|x: int, a2: u32, b2: u32| #[trigger]
                            seen(w, h, bs, ld, i as int, t + 1, x, a2, b2) implies exists|f: int|
                            0 <= f < ka@.len() && ka@[f] == a2 && kb@[f] == b2 by {
                            if !seen(w, h, bs, ld, i as int, t as int, x, a2, b2) {
                                assert(ka@[e as int] == a2 && kb@[e as int] == b2);
                            }
                        }
                        assert forall|f: int| 0 <= f < ka@.len() implies seen(w, h, bs, ld, i as int, t + 1, #[trigger] best@[f] as int, ka@[f], kb@[f]) by {
                            if f != e {
                                assert(best@[f] == best0[f]);
                                assert(seen(w, h, bs, ld, i as int, t as int, best0[f] as int, ka0[f], kb0[f]));
                            } else {
                                assert(seen(w, h, bs, ld, i as int, t as int, best0[f] as int, ka0[f], kb0[f]));
                            }
                        }
                        assert forall|f: int, x: int|
                            0 <= f < ka@.len() && x != best@[f] && #[trigger] seen(w, h, bs, ld, i as int, t + 1, x, ka@[f], kb@[f])
                                implies lower(hk, best@[f] as int, x) by {
                            if f != e {
                                assert(best@[f] == best0[f]);
                                if x == i && ka@[f] == a && kb@[f] == b {
                                    assert(false);
                                }
                                assert(seen(w, h, bs, ld, i as int, t as int, x, ka0[f], kb0[f]));
                            } else if seen(w, h, bs, ld, i as int, t as int, x, ka0[f], kb0[f]) {
                                if x != best0[f] {
                                    assert(lower(hk, best0[f] as int, x));
                                }
                            }
                        }
                    }
                } else {
                    ka.push(a);
                    kb.push(b);
                    best.push(i);
                    proof {
                        let m = ka0.len() as int;
                        assert(ka@[m] == a && kb@[m] == b && best@[m] == i);
                        assert forall|x: int, a2: u32, b2: u32| #[trigger]
                            seen(w, h, bs, ld, i as int, t + 1, x, a2, b2) implies exists|f: int|
                            0 <= f < ka@.len() && ka@[f] == a2 && kb@[f] == b2 by {
                            if seen(w, h, bs, ld, i as int, t as int, x, a2, b2) {
                                let f = choose|f: int| 0 <= f < ka0.len() && ka0[f] == a2 && kb0[f] == b2;
                                assert(ka@[f] == a2 && kb@[f] == b2);
                            } else {
                                assert(ka@[m] == a2 && kb@[m] == b2);
                            }
                        }
                        assert forall|e1: int, e2: int| 0 <= e1 < e2 < ka@.len() implies (ka@[e1] != ka@[e2] || kb@[e1] != kb@[e2]) by {
                            if e2 == m {
                                assert(ka@[e1] == ka0[e1] && kb@[e1] == kb0[e1]);
                                assert(!(ka0[e1] == a && kb0[e1] == b));
                            } else {
                                assert(ka@[e1] == ka0[e1] && kb@[e1] == kb0[e1]);
                                assert(ka@[e2] == ka0[e2] && kb@[e2] == kb0[e2]);
                            }
                        }
                        assert forall|f: int| 0 <= f < ka@.len() implies seen(w, h, bs, ld, i as int, t + 1, #[trigger] best@[f] as int, ka@[f], kb@[f]) by {
                            if f < m {
                                assert(best@[f] == best0[f] && ka@[f] == ka0[f] && kb@[f] == kb0[f]);
                                assert(seen(w, h, bs, ld, i as int, t as int, best0[f] as int, ka0[f], kb0[f]));
                            }
                        }
                        assert forall|f: int, x: int|
                            0 <= f < ka@.len() && x != best@[f] && #[trigger] seen(w, h, bs, ld, i as int, t + 1, x, ka@[f], kb@[f])
                                implies lower(hk, best@[f] as int, x) by {
                            if f < m {
                                assert(best@[f] == best0[f] && ka@[f] == ka0[f] && kb@[f] == kb0[f]);
                                if x == i && ka@[f] == a && kb@[f] == b {
                                    assert(seen(w, h, bs, ld, i as int, t as int, best0[f] as int, a, b));
                                    assert(false);
                                }
                                assert(seen(w, h, bs, ld, i as int, t as int, x, ka0[f], kb0[f]));
                            } else {
                                if seen(w, h, bs, ld, i as int, t as int, x, a, b) {
                                    let g = choose|g: int| 0 <= g < ka0.len() && ka0[g] == a && kb0[g] == b;
                                    assert(false);
                                }
                            }
                        }
                        assert forall|f: int| 0 <= f < best@.len() implies #[trigger] best@[f] <= i by {
                            if f < m {
                                assert(best@[f] == best0[f]);
                            }
                        }
                    }
                }
            } else {
                proof {
                    assert forall|x: int, a2: u32, b2: u32|
                        #[trigger] seen(w, h, bs, ld, i as int, t + 1, x, a2, b2) <==> seen(w, h, bs, ld, i as int, t as int, x, a2, b2) by {
                        if x == i && seen(w, h, bs, ld, i as int, t + 1, x, a2, b2) {
                            let s = choose|s: int|
                                0 <= s < t + 1 && #[trigger] crosses(w, h, bs, ld, i as int, neighbors8(w as int, h as int, i as int)[s] as int, a2, b2);
                            assert(s != t);
                        }
                    }
                }
            }
            t = t + 1;
        }
        proof {
            // Past its last neighbour, cell `i` has shown every divide it lies on.
            assert forall|x: int, a2: u32, b2: u32|
                #[trigger] seen(w, h, bs, ld, i + 1, 0, x, a2, b2) <==> seen(w, h, bs, ld, i as int, nbs@.len() as int, x, a2, b2) by {
                if x == i && on_divide(w, h, bs, ld, x, a2, b2) {
                    let nb = choose|nb: int| #[trigger] crosses(w, h, bs, ld, x, nb, a2, b2);
                    lemma_adjacent_in_neighbors(w as int, h as int, x, nb);
                    let s = choose|s: int| 0 <= s < nbs@.len() && nbs@[s] == nb as u32;
                    assert(crosses(w, h, bs, ld, i as int, neighbors8(w as int, h as int, i as int)[s] as int, a2, b2));
                }
                if x == i && seen(w, h, bs, ld, i as int, nbs@.len() as int, x, a2, b2) {
                    let s = choose|s: int|
                        0 <= s < nbs@.len() && #[trigger] crosses(w, h, bs, ld, i as int, neighbors8(w as int, h as int, i as int)[s] as int, a2, b2);
                    assert(on_divide(w, h, bs, ld, x, a2, b2));
                }
            }
        }
        i = i + 1;
    }
    // Mark the col cells, then list them in ascending order.
    let mut mark: Vec<bool> = Vec::new();
    let mut k: u32 = 0;
    while k < n
        invariant
            k <= n,
            mark@.len() == k,
            forall|x: int| 0 <= x < k ==> !#[trigger] mark@[x],
        decreases n - k,
    {
        mark.push(false);
        k = k + 1;
    }
    let mut e: usize = 0;
    while e < best.len()
        invariant
            mark@.len() == n,
            e <= best@.len(),
            forall|f: int| 0 <= f < best@.len() ==> #[trigger] best@[f] < n,
            forall|x: int| 0 <= x < n ==> (#[trigger] mark@[x] <==> exists|f: int| 0 <= f < e && best@[f] == x),
        decreases best@.len() - e,
    {
        mark.set(best[e] as usize, true);
        proof {
            assert forall|x: int| 0 <= x < n implies (#[trigger] mark@[x] <==> exists|f: int| 0 <= f < e + 1 && best@[f] == x) by {
                if x == best@[e as int] {
                    assert(best@[e as int] == x);
                }
            }
        }
        e = e + 1;
    }
    proof {
        assert forall|c: int| 0 <= c < n implies (mark@[c] <==> is_col(w, h, hk, bs, ld, c)) by {
            if mark@[c] {
                let f = choose|f: int| 0 <= f < best@.len() && best@[f] == c;
                let (a, b) = (ka@[f], kb@[f]);
                assert(seen(w, h, bs, ld, n as int, 0, c, a, b));
                assert forall|x: int| 0 <= x < w * h && x != c && #[trigger] on_divide(w, h, bs, ld, x, a, b) implies lower(hk, c, x) by {
                    assert(seen(w, h, bs, ld, n as int, 0, x, a, b));
                }
                assert(on_divide(w, h, bs, ld, c, a, b));
            }
            if is_col(w, h, hk, bs, ld, c) {
                let (a, b) = choose|a: u32, b: u32|
                    #[trigger] on_divide(w, h, bs, ld, c, a, b) && forall|x: int|
                        0 <= x < w * h && x != c && #[trigger] on_divide(w, h, bs, ld, x, a, b) ==> lower(hk, c, x);
                assert(seen(w, h, bs, ld, n as int, 0, c, a, b));
                let f = choose|f: int| 0 <= f < ka@.len() && ka@[f] == a && kb@[f] == b;
                let bf = best@[f] as int;
                assert(seen(w, h, bs, ld, n as int, 0, bf, a, b));
                if bf != c {
                    assert(lower(hk, bf, c));
                    assert(on_divide(w, h, bs, ld, bf, a, b));
                    assert(lower(hk, c, bf));
                }
                assert(best@[f] == c);
            }
        }
    }
    let mut cols: Vec<u32> = Vec::new();
    let mut c: u32 = 0;
    while c < n
        invariant
            n == w * h,
            mark@.len() == n,
            c <= n,
            forall|x: int| 0 <= x < n ==> (mark@[x] <==> is_col(w, h, hk, bs, ld, x)),
            hk == height_keys@,
            bs == basin@,
            ld == land@,
            forall|s: int, t: int| 0 <= s < t < cols@.len() ==> cols@[s] < cols@[t],
            forall|s: int| 0 <= s < cols@.len() ==> #[trigger] cols@[s] < c,
            forall|x: u32| cols@.contains(x) <==> (x < c && is_col(w, h, hk, bs, ld, x as int)),
        decreases n - c,
    {
        let ghost old_cols = cols@;
        if mark[c as usize] {
            cols.push(c);
        }
        proof {
            assert forall|x: u32| cols@.contains(x) <==> (x < c + 1 && is_col(w, h, hk, bs, ld, x as int)) by {
                if cols@.contains(x) {
                    let s = choose|s: int| 0 <= s < cols@.len() && cols@[s] == x;
                    if s < old_cols.len() {
                        assert(old_cols[s] == x);
                        assert(old_cols.contains(x));
                    }
                }
                if x < c + 1 && is_col(w, h, hk, bs, ld, x as int) {
                    if x < c {
                        assert(old_cols.contains(x));
                        let s = choose|s: int| 0 <= s < old_cols.len() && old_cols[s] == x;
                        assert(cols@[s] == x);
                    } else {
                        assert(mark@[c as int]);
                        assert(cols@[cols@.len() - 1] == x);
                    }
                }
            }
            assert forall|s1: int, t1: int| 0 <= s1 < t1 < cols@.len() implies cols@[s1] < cols@[t1] by {
                assert(cols@[s1] == old_cols[s1]);
                if t1 < old_cols.len() {
                    assert(cols@[t1] == old_cols[t1]);
                }
            }
        }
        c = c + 1;
    }
    cols
}

/// The lowest crossing of every divide between two land basins: for each
/// pair of basins that meet along D8 neighbours on land, the land cell on
/// their shared boundary that comes first by height key, then by index.
/// The distinct col cells, ascending. `height_keys` orders the cells as
/// their heights do.
pub fn basin_boundary_cols(w: u32, h: u32, height_keys: &[i64], basin: &[u32], land: &[bool]) -> (cols: Vec<u32>)
    requires
        w * h <= u32::MAX,
        height_keys@.len() >= w * h,
        basin@.len() >= w * h,
        land@.len() >= w * h,
    ensures
        forall|s: int, t: int| 0 <= s < t < cols@.len() ==> cols@[s] < cols@[t],
        forall|c: u32| cols@.contains(c) <==> (c < w * h && is_col(w, h, on_grid(w, h, height_keys@), on_grid(w, h, basin@), on_grid(w, h, land@), c as int)),
{
    let height_keys = grid_part(w, h, height_keys);
    let basin = grid_part(w, h, basin);
    let land = grid_part(w, h, land);
    basin_boundary_cols_in_grid(w, h, height_keys, basin, land)
}

/// River cell `d` is a D8 neighbour of `c` that drains into it.
pub open spec fn river_donor(w: u32, h: u32, rc: Seq<u32>, st: Seq<u32>, c: int, d: int) -> bool {
    &&& adjacent8(w as int, h as int, c, d)
    &&& rc[d] as int == c
    &&& st[d] > 0
}

/// `d` comes before `e` among donors: larger drainage area first, then
/// smaller index.
pub open spec fn drains_more(area: Seq<u64>, d: int, e: int) -> bool {
    area[d] > area[e] || (area[d] == area[e] && d < e)
}

/// `d` is the river donor of `c` with the largest drainage area, ties to
/// the smaller index: the next cell of the main stem above `c`.
pub open spec fn stem_step(w: u32, h: u32, rc: Seq<u32>, st: Seq<u32>, area: Seq<u64>, c: int, d: int) -> bool {
    &&& river_donor(w, h, rc, st, c, d)
    &&& forall|e: int| #[trigger] river_donor(w, h, rc, st, c, e) && e != d ==> drains_more(area, d, e)
}

/// No river cell drains into `c`.
pub open spec fn stem_top(w: u32, h: u32, rc: Seq<u32>, st: Seq<u32>, c: int) -> bool {
    !exists|d: int| #[trigger] river_donor(w, h, rc, st, c, d)
}

/// [`mainstem`] on slices of exactly `w × h` entries.
fn mainstem_in_grid(w: u32, h: u32, receivers: &[u32], strahler: &[u32], area_cells: &[u64], mouth: u32) -> (stem: Vec<u32>)
    requires
        grid_ok(w, h),
        receivers@.len() == w * h,
        strahler@.len() == w * h,
        area_cells@.len() == w * h,
        mouth < w * h,
    ensures
        1 <= stem@.len() <= w * h + 1,
        stem@[0] == mouth,
        forall|k: int| 0 <= k < stem@.len() - 1 ==> stem_step(
            w,
            h,
            receivers@,
            strahler@,
            area_cells@,
            #[trigger] stem@[k] as int,
            stem@[k + 1] as int,
        ),
        stem@.len() <= w * h ==> stem_top(w, h, receivers@, strahler@, stem@.last() as int),
{
    let n: usize = (w * h) as usize;
    let ghost rc = receivers@;
    let ghost st = strahler@;
    let ghost ar = area_cells@;
    let mut stem: Vec<u32> = Vec::new();
    stem.push(mouth);
    let mut c: u32 = mouth;
    loop
        invariant
            grid_ok(w, h),
            n == w * h,
            rc == receivers@,
            st == strahler@,
            ar == area_cells@,
            rc.len() == n,
            st.len() == n,
            ar.len() == n,
            1 <= stem@.len() <= n,
            stem@[0] == mouth,
            c == stem@.last(),
            c < n,
            forall|k: int| 0 <= k < stem@.len() - 1 ==> stem_step(w, h, rc, st, ar, #[trigger] stem@[k] as int, stem@[k + 1] as int),
        ensures
            1 <= stem@.len() <= n + 1,
            stem@[0] == mouth,
            forall|k: int| 0 <= k < stem@.len() - 1 ==> stem_step(w, h, rc, st, ar, #[trigger] stem@[k] as int, stem@[k + 1] as int),
            stem@.len() <= n ==> stem_top(w, h, rc, st, stem@.last() as int),
        decreases n - stem@.len(),
    {
        let nbs = neighbors(w, h, c);
        let mut next: u32 = 0;
        let mut have = false;
        let mut t: usize = 0;
        while t < nbs.len()
            invariant
                grid_ok(w, h),
                rc == receivers@,
                st == strahler@,
                ar == area_cells@,
                rc.len() == w * h,
                st.len() == w * h,
                ar.len() == w * h,
                c < w * h,
                nbs@ == neighbors8(w as int, h as int, c as int),
                forall|j: int| 0 <= j < nbs@.len() ==> adjacent8(w as int, h as int, c as int, #[trigger] nbs@[j] as int),
                t <= nbs@.len(),
                have ==> river_donor(w, h, rc, st, c as int, next as int),
                have ==> exists|j: int| 0 <= j < t && nbs@[j] == next,
                forall|j: int|
                    0 <= j < t && #[trigger] river_donor(w, h, rc, st, c as int, nbs@[j] as int) ==> have && (nbs@[j] == next
                        || drains_more(ar, next as int, nbs@[j] as int)),
            decreases nbs@.len() - t,
        {
            let nb = nbs[t];
            proof {
                assert(adjacent8(w as int, h as int, c as int, nb as int));
            }
            if receivers[nb as usize] == c && nb != c && strahler[nb as usize] > 0 {
                let better = if !have {
                    true
                } else {
                    area_cells[nb as usize] > area_cells[next as usize] || (area_cells[nb as usize]
                        == area_cells[next as usize] && nb < next)
                };
                if better {
                    next = nb;
                    have = true;
                }
            }
            t = t + 1;
        }
        proof {
            assert forall|d: int| #[trigger] river_donor(w, h, rc, st, c as int, d) implies have && (d == next
                || drains_more(ar, next as int, d)) by {
                lemma_adjacent_in_neighbors(w as int, h as int, c as int, d);
                let j = choose|j: int| 0 <= j < nbs@.len() && nbs@[j] == d as u32;
                assert(river_donor(w, h, rc, st, c as int, nbs@[j] as int));
            }
        }
        if !have {
            return stem;
        }
        let ghost before = stem@;
        stem.push(next);
        proof {
            assert(stem_step(w, h, rc, st, ar, c as int, next as int));
            assert forall|k: int| 0 <= k < stem@.len() - 1 implies stem_step(w, h, rc, st, ar, #[trigger] stem@[k] as int, stem@[k + 1] as int) by {
                assert(stem@[k] == before[k]);
                if k < before.len() - 1 {
                    assert(stem@[k + 1] == before[k + 1]);
                }
            }
        }
        if stem.len() > n {
            return stem;
        }
        c = next;
    }
}

/// The main stem above `mouth`: walked upstream, at each cell to the
/// river donor of largest drainage area (ties to the smaller index),
/// until a cell that no river cell drains into. A walk that grows past
/// `w * h` cells has met a receiver cycle and stops there.
pub fn mainstem(w: u32, h: u32, receivers: &[u32], strahler: &[u32], area_cells: &[u64], mouth: u32) -> (stem: Vec<u32>)
    requires
        grid_ok(w, h),
        receivers@.len() >= w * h,
        strahler@.len() >= w * h,
        area_cells@.len() >= w * h,
        mouth < w * h,
    ensures
        1 <= stem@.len() <= w * h + 1,
        stem@[0] == mouth,
        forall|k: int| 0 <= k < stem@.len() - 1 ==> stem_step(
            w,
            h,
            on_grid(w, h, receivers@),
            on_grid(w, h, strahler@),
            on_grid(w, h, area_cells@),
            #[trigger] stem@[k] as int,
            stem@[k + 1] as int,
        ),
        stem@.len() <= w * h ==> stem_top(w, h, on_grid(w, h, receivers@), on_grid(w, h, strahler@), stem@.last() as int),
{
    let receivers = grid_part(w, h, receivers);
    let strahler = grid_part(w, h, strahler);
    let area_cells = grid_part(w, h, area_cells);
    mainstem_in_grid(w, h, receivers, strahler, area_cells, mouth)
}

} // verus!
