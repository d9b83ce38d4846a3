//! The regular square-cell grid: cell (x, y) ↔ index `y * w + x`, y grows
//! southward, and the D8 neighbourhood in its fixed scan order (NW, N, NE,
//! W, E, SW, S, SE) — the order is part of the determinism contract.

use vstd::prelude::*;

verus! {

/// The D8 offsets in scan order.
pub open spec fn d8(k: int) -> (int, int) {
    if k == 0 {
        (-1, -1)
    } else if k == 1 {
        (0, -1)
    } else if k == 2 {
        (1, -1)
    } else if k == 3 {
        (-1, 0)
    } else if k == 4 {
        (1, 0)
    } else if k == 5 {
        (-1, 1)
    } else if k == 6 {
        (0, 1)
    } else {
        (1, 1)
    }
}

/// The in-grid cell at offset `k` from `i`, if any.
pub open spec fn d8_cell(w: int, h: int, i: int, k: int) -> Option<int> {
    let x = i % w + d8(k).0;
    let y = i / w + d8(k).1;
    if 0 <= x < w && 0 <= y < h {
        Some(y * w + x)
    } else {
        None
    }
}

/// The in-grid D8 neighbours of `i` among the first `k` offsets, in scan
/// order.
pub open spec fn neighbors_upto(w: int, h: int, i: int, k: int) -> Seq<u32>
    decreases k,
{
    if k <= 0 {
        Seq::empty()
    } else {
        match d8_cell(w, h, i, k - 1) {
            Some(j) => neighbors_upto(w, h, i, k - 1).push(j as u32),
            None => neighbors_upto(w, h, i, k - 1),
        }
    }
}

/// The in-grid D8 neighbours of `i`, in scan order.
pub open spec fn neighbors8(w: int, h: int, i: int) -> Seq<u32> {
    neighbors_upto(w, h, i, 8)
}

/// `a` and `b` are distinct D8-adjacent cells of a `w × h` grid.
pub open spec fn adjacent8(w: int, h: int, a: int, b: int) -> bool {
    &&& 0 <= a < w * h
    &&& 0 <= b < w * h
    &&& a != b
    &&& -1 <= a % w - b % w <= 1
    &&& -1 <= a / w - b / w <= 1
}

/// The entries of a per-cell slice that belong to the `w × h` grid; any
/// entries past them are not read.
pub open spec fn on_grid<T>(w: u32, h: u32, s: Seq<T>) -> Seq<T> {
    s.subrange(0, w * h)
}

/// The part of a per-cell slice that belongs to the `w × h` grid.
pub(crate) fn grid_part<T>(w: u32, h: u32, s: &[T]) -> (r: &[T])
    requires
        w * h <= u32::MAX,
        s@.len() >= w * h,
    ensures
        r@ == on_grid(w, h, s@),
{
    let n: u32 = w * h;
    vstd::slice::slice_subrange(s, 0, n as usize)
}

/// A grid of `w × h` cells; `w * h` fits the u32 cell indices.
pub open spec fn grid_ok(w: u32, h: u32) -> bool {
    w >= 1 && h >= 1 && w * h <= u32::MAX
}

pub proof fn lemma_cell_coords(w: int, h: int, i: int)
    requires
        w >= 1,
        h >= 1,
        0 <= i < w * h,
    ensures
        0 <= i % w < w,
        0 <= i / w < h,
        i == (i / w) * w + i % w,
{
    assert(0 <= i % w < w) by (nonlinear_arith)
        requires
            w >= 1,
    ;
    assert(i == (i / w) * w + i % w) by (nonlinear_arith)
        requires
            w >= 1,
    ;
    assert(0 <= i / w) by (nonlinear_arith)
        requires
            w >= 1,
            i >= 0,
    ;
    assert(i / w < h) by (nonlinear_arith)
        requires
            w >= 1,
            0 <= i < w * h,
    ;
}

pub proof fn lemma_index_coords(w: int, h: int, x: int, y: int)
    requires
        w >= 1,
        0 <= x < w,
        0 <= y < h,
    ensures
        0 <= y * w + x < w * h,
        (y * w + x) % w == x,
        (y * w + x) / w == y,
{
    assert(0 <= y * w + x < w * h) by (nonlinear_arith)
        requires
            w >= 1,
            0 <= x < w,
            0 <= y < h,
    ;
    vstd::arithmetic::div_mod::lemma_fundamental_div_mod_converse(y * w + x, w, y, x);
}

pub proof fn lemma_neighbors(w: int, h: int, i: int, k: int)
    requires
        w >= 1,
        h >= 1,
        0 <= i < w * h,
        w * h <= u32::MAX,
        0 <= k <= 8,
    ensures
        forall|j: int|
            0 <= j < neighbors_upto(w, h, i, k).len() ==> adjacent8(
                w,
                h,
                i,
                #[trigger] neighbors_upto(w, h, i, k)[j] as int,
            ),
        neighbors_upto(w, h, i, k).len() <= k,
    decreases k,
{
    if k > 0 {
        lemma_neighbors(w, h, i, k - 1);
        lemma_cell_coords(w, h, i);
        match d8_cell(w, h, i, k - 1) {
            Some(c) => {
                let x = i % w + d8(k - 1).0;
                let y = i / w + d8(k - 1).1;
                lemma_index_coords(w, h, x, y);
                let p = neighbors_upto(w, h, i, k - 1);
                let q = p.push(c as u32);
                assert(q[p.len() as int] as int == c);
                assert forall|j: int| 0 <= j < q.len() implies adjacent8(w, h, i, #[trigger] q[j] as int) by {
                    if j < p.len() {
                        assert(q[j] == p[j]);
                    }
                }
            },
            None => {},
        }
    }
}

proof fn lemma_neighbors_upto_contains(w: int, h: int, i: int, k: int, kk: int)
    requires
        0 <= k < kk <= 8,
        d8_cell(w, h, i, k) is Some,
    ensures
        neighbors_upto(w, h, i, kk).contains(d8_cell(w, h, i, k)->0 as u32),
    decreases kk,
{
    let j = d8_cell(w, h, i, k)->0;
    if k == kk - 1 {
        let p = neighbors_upto(w, h, i, kk - 1);
        assert(neighbors_upto(w, h, i, kk) == p.push(j as u32));
        assert(p.push(j as u32)[p.len() as int] == j as u32);
    } else {
        lemma_neighbors_upto_contains(w, h, i, k, kk - 1);
        let p = neighbors_upto(w, h, i, kk - 1);
        let q = neighbors_upto(w, h, i, kk);
        let t = choose|t: int| 0 <= t < p.len() && p[t] == j as u32;
        match d8_cell(w, h, i, kk - 1) {
            Some(m) => {
                assert(q == p.push(m as u32));
                assert(q[t] == p[t]);
            },
            None => {},
        }
    }
}

/// Every D8-adjacent cell is among the listed neighbours.
pub proof fn lemma_adjacent_in_neighbors(w: int, h: int, a: int, b: int)
    requires
        w >= 1,
        h >= 1,
        adjacent8(w, h, a, b),
    ensures
        neighbors8(w, h, a).contains(b as u32),
{
    lemma_cell_coords(w, h, a);
    lemma_cell_coords(w, h, b);
    let dx = b % w - a % w;
    let dy = b / w - a / w;
    let k: int = if dx == -1 && dy == -1 {
        0
    } else if dx == 0 && dy == -1 {
        1
    } else if dx == 1 && dy == -1 {
        2
    } else if dx == -1 && dy == 0 {
        3
    } else if dx == 1 && dy == 0 {
        4
    } else if dx == -1 && dy == 1 {
        5
    } else if dx == 0 && dy == 1 {
        6
    } else {
        7
    };
    if dx == 0 && dy == 0 {
        assert(a == b);
    }
    assert(d8(k) == (dx, dy));
    assert(d8_cell(w, h, a, k) == Some((b / w) * w + b % w));
    lemma_neighbors_upto_contains(w, h, a, k, 8);
}

proof fn lemma_d8_cell_injective(w: int, h: int, i: int, k1: int, k2: int)
    requires
        w >= 1,
        h >= 1,
        0 <= i < w * h,
        0 <= k1 < 8,
        0 <= k2 < 8,
        k1 != k2,
        d8_cell(w, h, i, k1) is Some,
        d8_cell(w, h, i, k2) is Some,
    ensures
        d8_cell(w, h, i, k1)->0 != d8_cell(w, h, i, k2)->0,
{
    lemma_cell_coords(w, h, i);
    let x1 = i % w + d8(k1).0;
    let y1 = i / w + d8(k1).1;
    let x2 = i % w + d8(k2).0;
    let y2 = i / w + d8(k2).1;
    lemma_index_coords(w, h, x1, y1);
    lemma_index_coords(w, h, x2, y2);
}

proof fn lemma_neighbors_upto_origin(w: int, h: int, i: int, k: int)
    requires
        w >= 1,
        h >= 1,
        0 <= i < w * h,
        w * h <= u32::MAX,
        0 <= k <= 8,
    ensures
        forall|j: int|
            0 <= j < neighbors_upto(w, h, i, k).len() ==> exists|t: int|
                0 <= t < k && d8_cell(w, h, i, t) == Some(#[trigger] neighbors_upto(w, h, i, k)[j] as int),
        neighbors_upto(w, h, i, k).len() <= k,
    decreases k,
{
    if k > 0 {
        lemma_neighbors_upto_origin(w, h, i, k - 1);
        let p = neighbors_upto(w, h, i, k - 1);
        let q = neighbors_upto(w, h, i, k);
        assert forall|j: int| 0 <= j < q.len() implies exists|t: int|
            0 <= t < k && d8_cell(w, h, i, t) == Some(#[trigger] q[j] as int) by {
            if j < p.len() {
                match d8_cell(w, h, i, k - 1) {
                    Some(m) => {
                        assert(q[j] == p[j]);
                    },
                    None => {},
                }
                let t = choose|t: int| 0 <= t < k - 1 && d8_cell(w, h, i, t) == Some(p[j] as int);
            } else {
                let m = d8_cell(w, h, i, k - 1)->0;
                assert(0 <= m < w * h) by {
                    lemma_cell_coords(w, h, i);
                    lemma_index_coords(w, h, i % w + d8(k - 1).0, i / w + d8(k - 1).1);
                }
                assert(q[j] == m as u32);
                assert(d8_cell(w, h, i, k - 1) == Some(q[j] as int));
            }
        }
    }
}

/// The listed neighbours are distinct cells.
pub proof fn lemma_neighbors_distinct(w: int, h: int, i: int, k: int)
    requires
        w >= 1,
        h >= 1,
        0 <= i < w * h,
        w * h <= u32::MAX,
        0 <= k <= 8,
    ensures
        neighbors_upto(w, h, i, k).no_duplicates(),
    decreases k,
{
    if k > 0 {
        lemma_neighbors_distinct(w, h, i, k - 1);
        lemma_neighbors_upto_origin(w, h, i, k - 1);
        let p = neighbors_upto(w, h, i, k - 1);
        match d8_cell(w, h, i, k - 1) {
            Some(m) => {
                let q = p.push(m as u32);
                assert(0 <= m < w * h) by {
                    lemma_cell_coords(w, h, i);
                    lemma_index_coords(w, h, i % w + d8(k - 1).0, i / w + d8(k - 1).1);
                }
                assert forall|a: int, b: int| 0 <= a < q.len() && 0 <= b < q.len() && a != b implies q[a] != q[b] by {
                    if a < p.len() && b < p.len() {
                        assert(q[a] == p[a] && q[b] == p[b]);
                    } else {
                        let j = if a < p.len() { a } else { b };
                        assert(q[j] == p[j]);
                        let t = choose|t: int| 0 <= t < k - 1 && d8_cell(w, h, i, t) == Some(p[j] as int);
                        lemma_d8_cell_injective(w, h, i, t, k - 1);
                        lemma_neighbors(w, h, i, k - 1);
                        assert(adjacent8(w, h, i, p[j] as int));
                    }
                }
            },
            None => {},
        }
    }
}

fn d8_exec(k: usize) -> (r: (i64, i64))
    requires
        k < 8,
    ensures
        r.0 == d8(k as int).0,
        r.1 == d8(k as int).1,
{
    match k {
        0 => (-1, -1),
        1 => (0, -1),
        2 => (1, -1),
        3 => (-1, 0),
        4 => (1, 0),
        5 => (-1, 1),
        6 => (0, 1),
        _ => (1, 1),
    }
}

/// The in-grid D8 neighbours of cell `i`, in scan order.
pub fn neighbors(w: u32, h: u32, i: u32) -> (r: Vec<u32>)
    requires
        grid_ok(w, h),
        (i as int) < w * h,
    ensures
        r@ == neighbors8(w as int, h as int, i as int),
        forall|j: int| 0 <= j < r@.len() ==> adjacent8(w as int, h as int, i as int, #[trigger] r@[j] as int),
        r@.len() <= 8,
{
    proof {
        lemma_cell_coords(w as int, h as int, i as int);
        lemma_neighbors(w as int, h as int, i as int, 8);
    }
    let x = (i % w) as i64;
    let y = (i / w) as i64;
    let mut out: Vec<u32> = Vec::new();
    let mut k: usize = 0;
    while k < 8
        invariant
            k <= 8,
            grid_ok(w, h),
            (i as int) < w * h,
            x == i % w,
            y == i / w,
            0 <= x < w,
            0 <= y < h,
            out@ == neighbors_upto(w as int, h as int, i as int, k as int),
        decreases 8 - k,
    {
        let (dx, dy) = d8_exec(k);
        let nx = x + dx;
        let ny = y + dy;
        if nx >= 0 && ny >= 0 && nx < w as i64 && ny < h as i64 {
            proof {
                lemma_index_coords(w as int, h as int, nx as int, ny as int);
            }
            let c = (ny as u32) * w + (nx as u32);
            out.push(c);
        }
        k = k + 1;
    }
    out
}

/// Cell index of (x, y).
pub fn idx(w: u32, x: u32, y: u32) -> (r: u32)
    requires
        y * w + x <= u32::MAX,
    ensures
        r == y * w + x,
{
    y * w + x
}

/// Coordinates (x, y) of cell `i`.
pub fn xy(w: u32, i: u32) -> (r: (u32, u32))
    requires
        w >= 1,
    ensures
        r.0 == i % w,
        r.1 == i / w,
{
    (i % w, i / w)
}

/// Whether cell `i` lies on the outer ring of the grid.
pub fn is_border(w: u32, h: u32, i: u32) -> (r: bool)
    requires
        w >= 1,
        h >= 1,
    ensures
        r == (i % w == 0 || i / w == 0 || i % w == w - 1 || i / w == h - 1),
{
    let (x, y) = xy(w, i);
    x == 0 || y == 0 || x == w - 1 || y == h - 1
}

/// Whether two D8-adjacent cells are diagonal neighbours.
pub fn is_diagonal(w: u32, a: u32, b: u32) -> (r: bool)
    requires
        w >= 1,
    ensures
        r == (a % w != b % w && a / w != b / w),
{
    a % w != b % w && a / w != b / w
}

} // verus!
