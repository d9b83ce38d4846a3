//! Head-of-navigation sites over the banded navigability predicate: the
//! navigable cells connected downstream to a river mouth along the
//! receivers tree, and those of them that no navigable cell of that set
//! drains into.

use vstd::prelude::*;

use crate::confluence::d8_receivers;
use crate::flow::lemma_distinct_cells;
use crate::grid::{adjacent8, grid_ok, grid_part, on_grid, lemma_adjacent_in_neighbors, neighbors, neighbors8};

verus! {

/// Within `k` steps downstream through navigable cells, each a D8
/// neighbour of the last, `i` reaches a cell whose receiver is not land
/// (a river mouth).
pub open spec fn reaches_mouth(
    w: u32,
    h: u32,
    rc: Seq<u32>,
    land: Seq<bool>,
    nav: Seq<u32>,
    i: int,
    k: nat,
) -> bool
    decreases k,
{
    nav[i] == 1 && (!land[rc[i] as int] || (k > 0 && rc[i] as int != i && adjacent8(
        w as int,
        h as int,
        rc[i] as int,
        i,
    ) && reaches_mouth(w, h, rc, land, nav, rc[i] as int, (k - 1) as nat)))
}

/// `i` belongs to the mouth-connected navigable set.
pub open spec fn mouth_connected_spec(
    w: u32,
    h: u32,
    rc: Seq<u32>,
    land: Seq<bool>,
    nav: Seq<u32>,
    i: int,
) -> bool {
    exists|k: nat| #[trigger] reaches_mouth(w, h, rc, land, nav, i, k)
}

/// `nb` is a navigable D8 neighbour of `c` that drains into it.
pub open spec fn nav_donor(w: u32, h: u32, rc: Seq<u32>, nav: Seq<u32>, c: int, nb: int) -> bool {
    adjacent8(w as int, h as int, c, nb) && rc[nb] as int == c && nb != c && nav[nb] == 1
}

/// [`mouth_connected`] on slices of exactly `w × h` entries.
fn mouth_connected_in_grid(w: u32, h: u32, receivers: &[u32], land: &[bool], navigable: &[u32]) -> (connected: Vec<bool>)
    requires
        w * h <= u32::MAX,
        receivers@.len() == w * h,
        land@.len() == w * h,
        navigable@.len() == w * h,
        crate::flow::receivers_in_range(receivers@),
    ensures
        connected@.len() == w * h,
        forall|i: int|
            0 <= i < w * h ==> (#[trigger] connected@[i] <==> mouth_connected_spec(
                w,
                h,
                receivers@,
                land@,
                navigable@,
                i,
            )),
{
    if w == 0 || h == 0 {
        proof {
            assert(w * h == 0) by (nonlinear_arith)
                requires
                    w == 0 || h == 0,
            ;
        }
        return Vec::new();
    }
    let n: usize = (w * h) as usize;
    let ghost rc = receivers@;
    let ghost nav = navigable@;
    let mut connected: Vec<bool> = Vec::new();
    let mut queue: Vec<u32> = Vec::new();
    let mut i: usize = 0;
    while i < n
        invariant
            i <= n,
            n == w * h,
            n <= u32::MAX,
            rc == receivers@,
            nav == navigable@,
            rc.len() == n,
            land@.len() == n,
            nav.len() == n,
            crate::flow::receivers_in_range(rc),
            connected@.len() == i,
            queue@.no_duplicates(),
            forall|j: int| 0 <= j < queue@.len() ==> (#[trigger] queue@[j] as int) < i,
            forall|x: int| 0 <= x < i ==> (#[trigger] connected@[x] <==> queue@.contains(x as u32)),
            forall|x: int| 0 <= x < i ==> (#[trigger] connected@[x] <==> (nav[x] == 1 && !land@[rc[x] as int])),
        decreases n - i,
    {
        let r = receivers[i] as usize;
        if navigable[i] == 1 && !land[r] {
            let ghost q0 = queue@;
            connected.push(true);
            queue.push(i as u32);
            proof {
                assert forall|a: int, b: int| 0 <= a < queue@.len() && 0 <= b < queue@.len() && a != b implies queue@[a] != queue@[b] by {
                    if a < q0.len() && b < q0.len() {
                        assert(queue@[a] == q0[a] && queue@[b] == q0[b]);
                    } else if a < q0.len() {
                        assert(queue@[a] == q0[a]);
                    } else {
                        assert(queue@[b] == q0[b]);
                    }
                }
                assert forall|x: int| 0 <= x < i + 1 implies (#[trigger] connected@[x] <==> queue@.contains(x as u32)) by {
                    if x < i {
                        if q0.contains(x as u32) {
                            let j = choose|j: int| 0 <= j < q0.len() && q0[j] == x as u32;
                            assert(queue@[j] == q0[j]);
                        }
                        if queue@.contains(x as u32) {
                            let j = choose|j: int| 0 <= j < queue@.len() && queue@[j] == x as u32;
                            if j == q0.len() {
                            } else {
                                assert(queue@[j] == q0[j]);
                            }
                        }
                    } else {
                        assert(queue@[q0.len() as int] == i as u32);
                    }
                }
            }
        } else {
            let ghost q0 = queue@;
            connected.push(false);
            proof {
                assert(!queue@.contains(i as u32));
            }
        }
        i = i + 1;
    }
    proof {
        assert forall|j: int| 0 <= j < queue@.len() implies mouth_connected_spec(w, h, rc, land@, nav, #[trigger] queue@[j] as int) by {
            let x = queue@[j] as int;
            assert(connected@[x]);
            assert(reaches_mouth(w, h, rc, land@, nav, x, 0));
        }
    }
    let mut head: usize = 0;
    while head < queue.len()
        invariant
            n == w * h,
            n <= u32::MAX,
            grid_ok(w, h),
            rc == receivers@,
            nav == navigable@,
            rc.len() == n,
            land@.len() == n,
            nav.len() == n,
            crate::flow::receivers_in_range(rc),
            connected@.len() == n,
            head <= queue@.len(),
            queue@.no_duplicates(),
            forall|j: int| 0 <= j < queue@.len() ==> (#[trigger] queue@[j] as int) < n,
            forall|x: int| 0 <= x < n ==> (#[trigger] connected@[x] <==> queue@.contains(x as u32)),
            forall|x: int| 0 <= x < n && nav[x] == 1 && !land@[rc[x] as int] ==> #[trigger] connected@[x],
            forall|j: int| 0 <= j < queue@.len() ==> mouth_connected_spec(w, h, rc, land@, nav, #[trigger] queue@[j] as int),
            forall|j: int, nb: int| 0 <= j < head && #[trigger] nav_donor(w, h, rc, nav, queue@[j] as int, nb) ==> connected@[nb],
        decreases n - head,
    {
        proof {
            lemma_distinct_cells(queue@, n as int);
        }
        let c = queue[head];
        let nbs = neighbors(w, h, c);
        let mut k: usize = 0;
        while k < nbs.len()
            invariant
                n == w * h,
                n <= u32::MAX,
                grid_ok(w, h),
                rc == receivers@,
                nav == navigable@,
                rc.len() == n,
                land@.len() == n,
                nav.len() == n,
                crate::flow::receivers_in_range(rc),
                connected@.len() == n,
                head < queue@.len(),
                c == queue@[head as int],
                (c as int) < n,
                nbs@ == neighbors8(w as int, h as int, c as int),
                forall|j: int| 0 <= j < nbs@.len() ==> adjacent8(w as int, h as int, c as int, #[trigger] nbs@[j] as int),
                k <= nbs@.len(),
                queue@.no_duplicates(),
                forall|j: int| 0 <= j < queue@.len() ==> (#[trigger] queue@[j] as int) < n,
                forall|x: int| 0 <= x < n ==> (#[trigger] connected@[x] <==> queue@.contains(x as u32)),
                forall|x: int| 0 <= x < n && nav[x] == 1 && !land@[rc[x] as int] ==> #[trigger] connected@[x],
                forall|j: int| 0 <= j < queue@.len() ==> mouth_connected_spec(w, h, rc, land@, nav, #[trigger] queue@[j] as int),
                forall|j: int, nb: int| 0 <= j < head && #[trigger] nav_donor(w, h, rc, nav, queue@[j] as int, nb) ==> connected@[nb],
                forall|t: int| 0 <= t < k && #[trigger] nav_donor(w, h, rc, nav, c as int, nbs@[t] as int) ==> connected@[nbs@[t] as int],
            decreases nbs@.len() - k,
        {
            let nb = nbs[k];
            proof {
                assert(adjacent8(w as int, h as int, c as int, nbs@[k as int] as int));
            }
            if receivers[nb as usize] == c && nb != c && navigable[nb as usize] == 1 && !connected[nb as usize] {
                let ghost q0 = queue@;
                proof {
                    assert(queue@.contains(c));
                    let kk = choose|kk: nat| #[trigger] reaches_mouth(w, h, rc, land@, nav, c as int, kk);
                    assert(adjacent8(w as int, h as int, c as int, nb as int));
                    assert(reaches_mouth(w, h, rc, land@, nav, nb as int, kk + 1));
                    assert(!queue@.contains(nb));
                }
                connected.set(nb as usize, true);
                queue.push(nb);
                proof {
                    assert forall|a: int, b: int| 0 <= a < queue@.len() && 0 <= b < queue@.len() && a != b implies queue@[a] != queue@[b] by {
                        if a < q0.len() && b < q0.len() {
                            assert(queue@[a] == q0[a] && queue@[b] == q0[b]);
                        } else if a < q0.len() {
                            assert(queue@[a] == q0[a]);
                            assert(q0.contains(q0[a]));
                        } else {
                            assert(queue@[b] == q0[b]);
                            assert(q0.contains(q0[b]));
                        }
                    }
                    assert forall|j: int| 0 <= j < queue@.len() implies (#[trigger] queue@[j] as int) < n by {
                        if j < q0.len() { assert(queue@[j] == q0[j]); }
                    }
                    assert forall|x: int| 0 <= x < n implies (#[trigger] connected@[x] <==> queue@.contains(x as u32)) by {
                        if x == nb as int {
                            assert(queue@[q0.len() as int] == nb);
                        } else {
                            if q0.contains(x as u32) {
                                let j = choose|j: int| 0 <= j < q0.len() && q0[j] == x as u32;
                                assert(queue@[j] == q0[j]);
                            }
                            if queue@.contains(x as u32) {
                                let j = choose|j: int| 0 <= j < queue@.len() && queue@[j] == x as u32;
                                if j < q0.len() {
                                    assert(queue@[j] == q0[j]);
                                }
                            }
                        }
                    }
                    assert forall|j: int| 0 <= j < queue@.len() implies mouth_connected_spec(w, h, rc, land@, nav, #[trigger] queue@[j] as int) by {
                        if j < q0.len() {
                            assert(queue@[j] == q0[j]);
                        } else {
                            let kk = choose|kk: nat| #[trigger] reaches_mouth(w, h, rc, land@, nav, c as int, kk);
                            assert(reaches_mouth(w, h, rc, land@, nav, nb as int, kk + 1));
                        }
                    }
                    assert forall|j: int, v: int| 0 <= j < head && #[trigger] nav_donor(w, h, rc, nav, queue@[j] as int, v) implies connected@[v] by {
                        assert(queue@[j] == q0[j]);
                    }
                }
            }
            k = k + 1;
        }
        proof {
            assert forall|j: int, v: int| 0 <= j < head + 1 && #[trigger] nav_donor(w, h, rc, nav, queue@[j] as int, v) implies connected@[v] by {
                if j == head {
                    lemma_adjacent_in_neighbors(w as int, h as int, c as int, v);
                    let t = choose|t: int| 0 <= t < nbs@.len() && nbs@[t] == v as u32;
                    assert(nav_donor(w, h, rc, nav, c as int, nbs@[t] as int));
                }
            }
        }
        head = head + 1;
    }
    proof {
        assert forall|i: int| 0 <= i < w * h implies (#[trigger] connected@[i] <==> mouth_connected_spec(w, h, rc, land@, nav, i)) by {
            if connected@[i] {
                let j = choose|j: int| 0 <= j < queue@.len() && queue@[j] == i as u32;
            }
            if mouth_connected_spec(w, h, rc, land@, nav, i) {
                let kk = choose|kk: nat| #[trigger] reaches_mouth(w, h, rc, land@, nav, i, kk);
                lemma_reach_marked(w, h, rc, land@, nav, queue@, connected@, i, kk);
            }
        }
    }
    connected
}

/// The mouth-connected navigable set: breadth-first upstream from the
/// navigable cells whose receiver is ocean, following donor edges between
/// D8 neighbours through navigable cells.
pub fn mouth_connected(w: u32, h: u32, receivers: &[u32], land: &[bool], navigable: &[u32]) -> (connected: Vec<bool>)
    requires
        w * h <= u32::MAX,
        receivers@.len() >= w * h,
        land@.len() >= w * h,
        navigable@.len() >= w * h,
        crate::flow::receivers_in_range(on_grid(w, h, receivers@)),
    ensures
        connected@.len() == w * h,
        forall|i: int|
            0 <= i < w * h ==> (#[trigger] connected@[i] <==> mouth_connected_spec(
                w,
                h,
                on_grid(w, h, receivers@),
                on_grid(w, h, land@),
                on_grid(w, h, navigable@),
                i,
            )),
{
    let receivers = grid_part(w, h, receivers);
    let land = grid_part(w, h, land);
    let navigable = grid_part(w, h, navigable);
    mouth_connected_in_grid(w, h, receivers, land, navigable)
}

proof fn lemma_reach_marked(
    w: u32,
    h: u32,
    rc: Seq<u32>,
    land: Seq<bool>,
    nav: Seq<u32>,
    queue: Seq<u32>,
    connected: Seq<bool>,
    i: int,
    k: nat,
)
    requires
        rc.len() == w * h,
        land.len() == w * h,
        nav.len() == w * h,
        connected.len() == w * h,
        crate::flow::receivers_in_range(rc),
        0 <= i < w * h,
        forall|x: int| 0 <= x < w * h ==> (#[trigger] connected[x] <==> queue.contains(x as u32)),
        forall|x: int| 0 <= x < w * h && nav[x] == 1 && !land[rc[x] as int] ==> #[trigger] connected[x],
        forall|j: int, nb: int| 0 <= j < queue.len() && #[trigger] nav_donor(w, h, rc, nav, queue[j] as int, nb) ==> connected[nb],
        reaches_mouth(w, h, rc, land, nav, i, k),
    ensures
        connected[i],
    decreases k,
{
    if land[rc[i] as int] {
        let c = rc[i] as int;
        lemma_reach_marked(w, h, rc, land, nav, queue, connected, c, (k - 1) as nat);
        let j = choose|j: int| 0 <= j < queue.len() && queue[j] == c as u32;
        assert(adjacent8(w as int, h as int, c, i));
        assert(nav_donor(w, h, rc, nav, queue[j] as int, i));
    }
}

/// `c` is a head of navigation: mouth-connected, with no D8 neighbour of
/// the mouth-connected set draining into it.
pub open spec fn is_head(w: u32, h: u32, rc: Seq<u32>, land: Seq<bool>, nav: Seq<u32>, c: int) -> bool {
    &&& mouth_connected_spec(w, h, rc, land, nav, c)
    &&& !exists|nb: int|
        adjacent8(w as int, h as int, c, nb) && rc[nb] as int == c && nb != c
            && #[trigger] mouth_connected_spec(w, h, rc, land, nav, nb)
}

/// The heads of navigation among cells `0..k`, ascending.
pub open spec fn heads_upto(w: u32, h: u32, rc: Seq<u32>, land: Seq<bool>, nav: Seq<u32>, k: int) -> Seq<u32>
    decreases k,
{
    if k <= 0 {
        Seq::empty()
    } else if is_head(w, h, rc, land, nav, k - 1) {
        heads_upto(w, h, rc, land, nav, k - 1).push((k - 1) as u32)
    } else {
        heads_upto(w, h, rc, land, nav, k - 1)
    }
}

/// [`head_of_navigation`] on slices of exactly `w × h` entries.
fn head_of_navigation_in_grid(w: u32, h: u32, receivers: &[u32], land: &[bool], navigable: &[u32]) -> (heads: Vec<u32>)
    requires
        w * h <= u32::MAX,
        receivers@.len() == w * h,
        land@.len() == w * h,
        navigable@.len() == w * h,
        crate::flow::receivers_in_range(receivers@),
    ensures
        heads@ == heads_upto(w, h, receivers@, land@, navigable@, w * h),
{
    if w == 0 || h == 0 {
        proof {
            assert(w * h == 0) by (nonlinear_arith)
                requires
                    w == 0 || h == 0,
            ;
        }
        return Vec::new();
    }
    let ghost rc = receivers@;
    let ghost nav = navigable@;
    let connected = mouth_connected_in_grid(w, h, receivers, land, navigable);
    let n: u32 = w * h;
    let mut heads: Vec<u32> = Vec::new();
    let mut c: u32 = 0;
    while c < n
        invariant
            grid_ok(w, h),
            n == w * h,
            c <= n,
            rc == receivers@,
            nav == navigable@,
            rc.len() == n,
            land@.len() == n,
            nav.len() == n,
            connected@.len() == n,
            forall|i: int| 0 <= i < n ==> (#[trigger] connected@[i] <==> mouth_connected_spec(w, h, rc, land@, nav, i)),
            heads@ == heads_upto(w, h, rc, land@, nav, c as int),
        decreases n - c,
    {
        if connected[c as usize] {
            let nbs = neighbors(w, h, c);
            let mut has_donor = false;
            let mut k: usize = 0;
            while k < nbs.len()
                invariant
                    n == w * h,
                    (c as int) < n,
                    rc == receivers@,
                    rc.len() == n,
                    connected@.len() == n,
                    nbs@ == neighbors8(w as int, h as int, c as int),
                    forall|j: int| 0 <= j < nbs@.len() ==> adjacent8(w as int, h as int, c as int, #[trigger] nbs@[j] as int),
                    k <= nbs@.len(),
                    has_donor <==> exists|t: int| 0 <= t < k && rc[#[trigger] nbs@[t] as int] == c && nbs@[t] != c
                        && connected@[nbs@[t] as int],
                decreases nbs@.len() - k,
            {
                let nb = nbs[k];
                proof {
                    assert(adjacent8(w as int, h as int, c as int, nbs@[k as int] as int));
                }
                if receivers[nb as usize] == c && nb != c && connected[nb as usize] {
                    has_donor = true;
                }
                k = k + 1;
            }
            proof {
                if has_donor {
                    let t = choose|t: int| 0 <= t < nbs@.len() && rc[#[trigger] nbs@[t] as int] == c && nbs@[t] != c
                        && connected@[nbs@[t] as int];
                    let nb = nbs@[t] as int;
                    assert(adjacent8(w as int, h as int, c as int, nb));
                    assert(mouth_connected_spec(w, h, rc, land@, nav, nb));
                } else {
                    if exists|nb: int|
                        adjacent8(w as int, h as int, c as int, nb) && rc[nb] as int == c && nb != c
                            && #[trigger] mouth_connected_spec(w, h, rc, land@, nav, nb) {
                        let nb = choose|nb: int|
                            adjacent8(w as int, h as int, c as int, nb) && rc[nb] as int == c && nb != c
                                && #[trigger] mouth_connected_spec(w, h, rc, land@, nav, nb);
                        lemma_adjacent_in_neighbors(w as int, h as int, c as int, nb);
                        let t = choose|t: int| 0 <= t < nbs@.len() && nbs@[t] == nb as u32;
                        assert(connected@[nb]);
                    }
                }
            }
            if !has_donor {
                heads.push(c);
            }
        }
        c = c + 1;
    }
    heads
}

/// Head-of-navigation cells, ascending: mouth-connected navigable cells
/// with no donor in that set (equivalently, no navigable donor, since a
/// navigable donor of a connected cell is itself connected).
pub fn head_of_navigation(w: u32, h: u32, receivers: &[u32], land: &[bool], navigable: &[u32]) -> (heads: Vec<u32>)
    requires
        w * h <= u32::MAX,
        receivers@.len() >= w * h,
        land@.len() >= w * h,
        navigable@.len() >= w * h,
        crate::flow::receivers_in_range(on_grid(w, h, receivers@)),
    ensures
        heads@ == heads_upto(w, h, on_grid(w, h, receivers@), on_grid(w, h, land@), on_grid(w, h, navigable@), w * h),
{
    let receivers = grid_part(w, h, receivers);
    let land = grid_part(w, h, land);
    let navigable = grid_part(w, h, navigable);
    head_of_navigation_in_grid(w, h, receivers, land, navigable)
}

/// Within `k` steps down the receivers from `i`, through navigable cells,
/// a cell whose receiver is not land is reached.
pub open spec fn walk_connects(rc: Seq<u32>, land: Seq<bool>, nav: Seq<u32>, i: int, k: nat) -> bool
    decreases k,
{
    nav[i] == 1 && (!land[rc[i] as int] || (k > 0 && rc[i] as int != i && walk_connects(
        rc,
        land,
        nav,
        rc[i] as int,
        (k - 1) as nat,
    )))
}

/// Within `k` steps down the receivers from `i`, the walk meets a cell
/// that is not navigable or a land cell that receives itself.
pub open spec fn walk_breaks(rc: Seq<u32>, land: Seq<bool>, nav: Seq<u32>, i: int, k: nat) -> bool
    decreases k,
{
    nav[i] != 1 || (land[rc[i] as int] && (rc[i] as int == i || (k > 0 && walk_breaks(
        rc,
        land,
        nav,
        rc[i] as int,
        (k - 1) as nat,
    ))))
}

/// The downstream walk from `i` reaches a mouth.
pub open spec fn walk_connected(rc: Seq<u32>, land: Seq<bool>, nav: Seq<u32>, i: int) -> bool {
    exists|k: nat| #[trigger] walk_connects(rc, land, nav, i, k)
}

/// The downstream walk from `i` meets a break.
pub open spec fn walk_broken(rc: Seq<u32>, land: Seq<bool>, nav: Seq<u32>, i: int) -> bool {
    exists|k: nat| #[trigger] walk_breaks(rc, land, nav, i, k)
}

/// The downstream walk from `i` ends, at a mouth or at a break.
pub open spec fn walk_ends(rc: Seq<u32>, land: Seq<bool>, nav: Seq<u32>, i: int) -> bool {
    walk_connected(rc, land, nav, i) || walk_broken(rc, land, nav, i)
}

/// `c` is walk-connected and no walk-connected cell drains into it.
pub open spec fn walk_head(rc: Seq<u32>, land: Seq<bool>, nav: Seq<u32>, c: int) -> bool {
    &&& walk_connected(rc, land, nav, c)
    &&& !exists|i: int| 0 <= i < rc.len() && rc[i] as int == c && i != c && #[trigger] walk_connected(rc, land, nav, i)
}

/// The walk heads among cells `0..k`, ascending.
pub open spec fn walk_heads_upto(rc: Seq<u32>, land: Seq<bool>, nav: Seq<u32>, k: int) -> Seq<u32>
    decreases k,
{
    if k <= 0 {
        Seq::empty()
    } else if walk_head(rc, land, nav, k - 1) {
        walk_heads_upto(rc, land, nav, k - 1).push((k - 1) as u32)
    } else {
        walk_heads_upto(rc, land, nav, k - 1)
    }
}

/// One navigable, non-mouth, non-self step keeps a cell's verdict.
proof fn lemma_walk_step(rc: Seq<u32>, land: Seq<bool>, nav: Seq<u32>, x: int)
    requires
        nav[x] == 1,
        land[rc[x] as int],
        rc[x] as int != x,
    ensures
        walk_connected(rc, land, nav, x) <==> walk_connected(rc, land, nav, rc[x] as int),
        walk_ends(rc, land, nav, x) <==> walk_ends(rc, land, nav, rc[x] as int),
{
    let r = rc[x] as int;
    if walk_connected(rc, land, nav, x) {
        let k = choose|k: nat| #[trigger] walk_connects(rc, land, nav, x, k);
        assert(walk_connects(rc, land, nav, r, (k - 1) as nat));
    }
    if walk_connected(rc, land, nav, r) {
        let k = choose|k: nat| #[trigger] walk_connects(rc, land, nav, r, k);
        assert(walk_connects(rc, land, nav, x, k + 1));
    }
    if walk_broken(rc, land, nav, x) {
        let k = choose|k: nat| #[trigger] walk_breaks(rc, land, nav, x, k);
        assert(walk_breaks(rc, land, nav, r, (k - 1) as nat));
    }
    if walk_broken(rc, land, nav, r) {
        let k = choose|k: nat| #[trigger] walk_breaks(rc, land, nav, r, k);
        assert(walk_breaks(rc, land, nav, x, k + 1));
    }
}

/// Cells of a receiver cycle through navigable land never end their walk.
proof fn lemma_cycle_never_ends(rc: Seq<u32>, land: Seq<bool>, nav: Seq<u32>, cyc: Seq<u32>, y: int, k: nat)
    requires
        cyc.contains(y as u32),
        0 <= y <= u32::MAX,
        forall|j: int| 0 <= j < cyc.len() ==> {
            let p = #[trigger] cyc[j] as int;
            &&& nav[p] == 1
            &&& land[rc[p] as int]
            &&& rc[p] as int != p
            &&& cyc.contains(rc[p])
        },
    ensures
        !walk_connects(rc, land, nav, y, k),
        !walk_breaks(rc, land, nav, y, k),
    decreases k,
{
    let j = choose|j: int| 0 <= j < cyc.len() && cyc[j] == y as u32;
    assert(cyc[j] as int == y);
    if k > 0 {
        lemma_cycle_never_ends(rc, land, nav, cyc, rc[y] as int, (k - 1) as nat);
    }
}

proof fn lemma_repeat_cycle(rc: Seq<u32>, land: Seq<bool>, nav: Seq<u32>, path: Seq<u32>, a: int, b: int)
    requires
        0 <= a < b < path.len(),
        path[a] == path[b],
        forall|j: int| 0 <= j < path.len() - 1 ==> #[trigger] rc[path[j] as int] == path[j + 1],
        forall|j: int| 0 <= j < path.len() ==> {
            let p = #[trigger] path[j] as int;
            &&& nav[p] == 1
            &&& land[rc[p] as int]
            &&& rc[p] as int != p
        },
    ensures
        !walk_ends(rc, land, nav, path[a] as int),
{
    let cyc = path.subrange(a, b);
    assert forall|j: int| 0 <= j < cyc.len() implies {
        let p = #[trigger] cyc[j] as int;
        &&& nav[p] == 1
        &&& land[rc[p] as int]
        &&& rc[p] as int != p
        &&& cyc.contains(rc[p])
    } by {
        let p = cyc[j] as int;
        assert(cyc[j] == path[a + j]);
        assert(rc[path[a + j] as int] == path[a + j + 1]);
        if a + j + 1 < b {
            assert(cyc[j + 1] == path[a + j + 1]);
        } else {
            assert(cyc[0] == path[a]);
        }
    }
    assert(cyc[0] == path[a]);
    if walk_connected(rc, land, nav, path[a] as int) {
        let k = choose|k: nat| #[trigger] walk_connects(rc, land, nav, path[a] as int, k);
        lemma_cycle_never_ends(rc, land, nav, cyc, path[a] as int, k);
    }
    if walk_broken(rc, land, nav, path[a] as int) {
        let k = choose|k: nat| #[trigger] walk_breaks(rc, land, nav, path[a] as int, k);
        lemma_cycle_never_ends(rc, land, nav, cyc, path[a] as int, k);
    }
}

/// A downstream walk of `n + 1` steps over `n` cells through navigable
/// land has closed a cycle, whose cells never end their walk.
proof fn lemma_long_path_cycles(rc: Seq<u32>, land: Seq<bool>, nav: Seq<u32>, path: Seq<u32>, n: int)
    requires
        0 <= n <= u32::MAX,
        path.len() == n + 1,
        forall|j: int| 0 <= j < path.len() ==> (#[trigger] path[j] as int) < n,
        forall|j: int| 0 <= j < path.len() - 1 ==> #[trigger] rc[path[j] as int] == path[j + 1],
        forall|j: int| 0 <= j < path.len() - 1 ==> {
            let p = #[trigger] path[j] as int;
            &&& nav[p] == 1
            &&& land[rc[p] as int]
            &&& rc[p] as int != p
        },
    ensures
        exists|i: int| 0 <= i < n && !#[trigger] walk_ends(rc, land, nav, i),
{
    if forall|a: int, b: int| 0 <= a < b < path.len() ==> path[a] != path[b] {
        lemma_distinct_cells(path, n);
    }
    let (a, b) = choose|a: int, b: int| 0 <= a < b < path.len() && path[a] == path[b];
    let p2 = path.subrange(0, b + 1);
    assert forall|j: int| 0 <= j < p2.len() - 1 implies #[trigger] rc[p2[j] as int] == p2[j + 1] by {
        assert(p2[j] == path[j] && p2[j + 1] == path[j + 1]);
    }
    assert forall|j: int| 0 <= j < p2.len() implies {
        let p = #[trigger] p2[j] as int;
        &&& nav[p] == 1
        &&& land[rc[p] as int]
        &&& rc[p] as int != p
    } by {
        if j < b {
            assert(p2[j] == path[j]);
        } else {
            assert(p2[j] == path[a]);
        }
    }
    lemma_repeat_cycle(rc, land, nav, p2, a, b);
    assert(p2[a] == path[a]);
    assert(!walk_ends(rc, land, nav, path[a] as int));
}

/// Checks a list of head cells against the walk definition, computed by
/// memoised downstream walks rather than the upstream search: every cell's
/// walk must end (a receiver cycle through navigable land fails the check),
/// and the list must be exactly the walk heads, ascending.
pub fn verify_heads(receivers: &[u32], land: &[bool], navigable: &[u32], heads: &[u32]) -> (ok: bool)
    requires
        land@.len() == receivers@.len(),
        navigable@.len() == receivers@.len(),
        receivers@.len() <= u32::MAX,
        crate::flow::receivers_in_range(receivers@),
    ensures
        ok == ((forall|i: int| 0 <= i < receivers@.len() ==> #[trigger] walk_ends(receivers@, land@, navigable@, i))
            && heads@ == walk_heads_upto(receivers@, land@, navigable@, receivers@.len() as int)),
{
    let ghost rc = receivers@;
    let ghost ld = land@;
    let ghost nv = navigable@;
    let n = land.len();
    let mut state: Vec<u8> = Vec::new();
    let mut k: usize = 0;
    while k < n
        invariant
            k <= n,
            state@.len() == k,
            forall|x: int| 0 <= x < k ==> #[trigger] state@[x] == 0,
        decreases n - k,
    {
        state.push(0);
        k = k + 1;
    }
    let mut start: usize = 0;
    while start < n
        invariant
            n == rc.len(),
            ld.len() == n,
            nv.len() == n,
            n <= u32::MAX,
            rc == receivers@,
            ld == land@,
            nv == navigable@,
            crate::flow::receivers_in_range(rc),
            start <= n,
            state@.len() == n,
            forall|x: int| 0 <= x < n ==> #[trigger] state@[x] <= 2,
            forall|x: int| 0 <= x < n && #[trigger] state@[x] != 0 ==> walk_ends(rc, ld, nv, x) && (state@[x] == 1 <==> walk_connected(rc, ld, nv, x)),
            forall|x: int| 0 <= x < start ==> #[trigger] state@[x] != 0 || nv[x] != 1,
        decreases n - start,
    {
        if state[start] != 0 {
            start = start + 1;
            continue;
        }
        let mut path: Vec<u32> = Vec::new();
        let mut c: u32 = start as u32;
        let mut verdict: u8 = 0;
        loop
            invariant_except_break
                path@.len() <= n,
                path@.len() == 0 ==> c as int == start,
                path@.len() > 0 ==> rc[path@.last() as int] == c,
                forall|j: int| 0 <= j < path@.len() - 1 ==> #[trigger] rc[path@[j] as int] == path@[j + 1],
                path@.len() > 0 ==> path@[0] as int == start,
                forall|j: int| 0 <= j < path@.len() ==> {
                    let p = #[trigger] path@[j] as int;
                    &&& p < n
                    &&& state@[p] == 0
                    &&& nv[p] == 1
                    &&& ld[rc[p] as int]
                    &&& rc[p] as int != p
                    &&& (walk_connected(rc, ld, nv, p) <==> walk_connected(rc, ld, nv, c as int))
                    &&& (walk_ends(rc, ld, nv, p) <==> walk_ends(rc, ld, nv, c as int))
                },
            invariant
                n == rc.len(),
                ld.len() == n,
                nv.len() == n,
                n <= u32::MAX,
                rc == receivers@,
                ld == land@,
                nv == navigable@,
                crate::flow::receivers_in_range(rc),
                start < n,
                state@.len() == n,
                state@[start as int] == 0,
                forall|x: int| 0 <= x < n ==> #[trigger] state@[x] <= 2,
                forall|x: int| 0 <= x < n && #[trigger] state@[x] != 0 ==> walk_ends(rc, ld, nv, x) && (state@[x] == 1 <==> walk_connected(rc, ld, nv, x)),
                forall|x: int| 0 <= x < start ==> #[trigger] state@[x] != 0 || nv[x] != 1,
                c < n,
            ensures
                verdict == 1 || verdict == 2,
                walk_ends(rc, ld, nv, c as int),
                verdict == 1 <==> walk_connected(rc, ld, nv, c as int),
                path@.len() == 0 ==> c as int == start && (nv[start as int] != 1 || state@[start as int] != 0),
                path@.len() > 0 ==> path@[0] as int == start,
                forall|j: int| 0 <= j < path@.len() ==> {
                    let p = #[trigger] path@[j] as int;
                    &&& p < n
                    &&& state@[p] == 0
                    &&& (walk_connected(rc, ld, nv, p) <==> walk_connected(rc, ld, nv, c as int))
                    &&& (walk_ends(rc, ld, nv, p) <==> walk_ends(rc, ld, nv, c as int))
                },
            decreases n - path@.len(),
        {
            let ci = c as usize;
            if state[ci] != 0 {
                verdict = state[ci];
                break;
            }
            if navigable[ci] != 1 {
                assert(walk_breaks(rc, ld, nv, c as int, 0));
                assert(!walk_connected(rc, ld, nv, c as int)) by {
                    if walk_connected(rc, ld, nv, c as int) {
                        let kk = choose|kk: nat| #[trigger] walk_connects(rc, ld, nv, c as int, kk);
                    }
                }
                verdict = 2;
                break;
            }
            let ghost before = path@;
            path.push(c);
            assert forall|j: int| 0 <= j < path@.len() implies {
                let p = #[trigger] path@[j] as int;
                &&& p < n
                &&& state@[p] == 0
                &&& (walk_connected(rc, ld, nv, p) <==> walk_connected(rc, ld, nv, c as int))
                &&& (walk_ends(rc, ld, nv, p) <==> walk_ends(rc, ld, nv, c as int))
            } by {
                if j < before.len() {
                    assert(path@[j] == before[j]);
                }
            }
            assert(path@[0] as int == start) by {
                if before.len() > 0 {
                    assert(path@[0] == before[0]);
                }
            }
            if path.len() > n {
                proof {
                    assert forall|j: int| 0 <= j < path@.len() - 1 implies #[trigger] rc[path@[j] as int] == path@[j + 1] by {
                        if j < before.len() - 1 {
                            assert(path@[j] == before[j] && path@[j + 1] == before[j + 1]);
                        } else {
                            assert(path@[j] == before.last());
                        }
                    }
                    assert forall|j: int| 0 <= j < path@.len() implies (#[trigger] path@[j] as int) < n by {
                        if j < before.len() {
                            assert(path@[j] == before[j]);
                        }
                    }
                    assert forall|j: int| 0 <= j < path@.len() - 1 implies {
                        let p = #[trigger] path@[j] as int;
                        &&& nv[p] == 1
                        &&& ld[rc[p] as int]
                        &&& rc[p] as int != p
                    } by {
                        assert(path@[j] == before[j]);
                    }
                    lemma_long_path_cycles(rc, ld, nv, path@, n as int);
                }
                return false;
            }
            let r = receivers[ci];
            if !land[r as usize] {
                assert(walk_connects(rc, ld, nv, c as int, 0));
                verdict = 1;
                break;
            }
            if r == c {
                assert(walk_breaks(rc, ld, nv, c as int, 0));
                assert(!walk_connected(rc, ld, nv, c as int)) by {
                    if walk_connected(rc, ld, nv, c as int) {
                        let kk = choose|kk: nat| #[trigger] walk_connects(rc, ld, nv, c as int, kk);
                    }
                }
                verdict = 2;
                break;
            }
            proof {
                lemma_walk_step(rc, ld, nv, c as int);
                assert forall|j: int| 0 <= j < path@.len() - 1 implies #[trigger] rc[path@[j] as int] == path@[j + 1] by {
                    if j < before.len() - 1 {
                        assert(path@[j] == before[j] && path@[j + 1] == before[j + 1]);
                    } else {
                        assert(path@[j] == before.last());
                    }
                }
                assert forall|j: int| 0 <= j < path@.len() implies {
                    let p = #[trigger] path@[j] as int;
                    &&& p < n
                    &&& state@[p] == 0
                    &&& nv[p] == 1
                    &&& ld[rc[p] as int]
                    &&& rc[p] as int != p
                    &&& (walk_connected(rc, ld, nv, p) <==> walk_connected(rc, ld, nv, r as int))
                    &&& (walk_ends(rc, ld, nv, p) <==> walk_ends(rc, ld, nv, r as int))
                } by {
                    if j < before.len() {
                        assert(path@[j] == before[j]);
                    }
                }
            }
            c = r;
        }
        let ghost old_state = state@;
        let mut j: usize = 0;
        while j < path.len()
            invariant
                n == rc.len(),
                state@.len() == n,
                j <= path@.len(),
                verdict == 1 || verdict == 2,
                forall|t: int| 0 <= t < path@.len() ==> (#[trigger] path@[t] as int) < n,
                forall|x: int| 0 <= x < n ==> #[trigger] state@[x] == if exists|t: int| 0 <= t < j && path@[t] as int == x {
                    verdict
                } else {
                    old_state[x]
                },
            decreases path@.len() - j,
        {
            let pc = path[j] as usize;
            state.set(pc, verdict);
            proof {
                assert forall|x: int| 0 <= x < n implies #[trigger] state@[x] == if exists|t: int| 0 <= t < j + 1 && path@[t] as int == x {
                    verdict
                } else {
                    old_state[x]
                } by {
                    if x == pc as int {
                        assert(path@[j as int] as int == x);
                    } else if exists|t: int| 0 <= t < j + 1 && path@[t] as int == x {
                        let t = choose|t: int| 0 <= t < j + 1 && path@[t] as int == x;
                        assert(0 <= t < j && path@[t] as int == x);
                    }
                }
            }
            j = j + 1;
        }
        proof {
            assert forall|x: int| 0 <= x < n implies #[trigger] state@[x] <= 2 by {
                assert(old_state[x] <= 2);
            }
            assert forall|x: int| 0 <= x < n && #[trigger] state@[x] != 0 implies walk_ends(rc, ld, nv, x) && (state@[x] == 1 <==> walk_connected(rc, ld, nv, x)) by {
                if exists|t: int| 0 <= t < path@.len() && path@[t] as int == x {
                    let t = choose|t: int| 0 <= t < path@.len() && path@[t] as int == x;
                    assert(path@[t] as int == x);
                } else {
                    assert(old_state[x] != 0);
                }
            }
            assert forall|x: int| 0 <= x < start + 1 implies #[trigger] state@[x] != 0 || nv[x] != 1 by {
                if exists|t: int| 0 <= t < path@.len() && path@[t] as int == x {
                    assert(state@[x] == verdict);
                } else {
                    assert(state@[x] == old_state[x]);
                    if x == start && path@.len() > 0 {
                        assert(path@[0] as int == x);
                    }
                }
            }
        }
        start = start + 1;
    }
    // Which cells have a connected donor, by one sweep over the receivers.
    let mut donor: Vec<bool> = Vec::new();
    let mut k: usize = 0;
    while k < n
        invariant
            k <= n,
            donor@.len() == k,
            forall|x: int| 0 <= x < k ==> !#[trigger] donor@[x],
        decreases n - k,
    {
        donor.push(false);
        k = k + 1;
    }
    let mut i: usize = 0;
    while i < n
        invariant
            n == rc.len(),
            rc == receivers@,
            crate::flow::receivers_in_range(rc),
            i <= n,
            donor@.len() == n,
            state@.len() == n,
            forall|x: int| 0 <= x < n ==> (#[trigger] donor@[x] <==> exists|d: int|
                0 <= d < i && rc[d] as int == x && d != x && state@[d] == 1),
        decreases n - i,
    {
        let r = receivers[i] as usize;
        if r != i && state[i] == 1 {
            donor.set(r, true);
        }
        proof {
            assert forall|x: int| 0 <= x < n implies (#[trigger] donor@[x] <==> exists|d: int|
                0 <= d < i + 1 && rc[d] as int == x && d != x && state@[d] == 1) by {
                if exists|d: int| 0 <= d < i + 1 && rc[d] as int == x && d != x && state@[d] == 1 {
                    let d = choose|d: int| 0 <= d < i + 1 && rc[d] as int == x && d != x && state@[d] == 1;
                    if d < i {
                        assert(exists|d: int| 0 <= d < i && rc[d] as int == x && d != x && state@[d] == 1);
                    }
                }
            }
        }
        i = i + 1;
    }
    let mut expected: Vec<u32> = Vec::new();
    let mut c: usize = 0;
    while c < n
        invariant
            n == rc.len(),
            ld.len() == n,
            nv.len() == n,
            n <= u32::MAX,
            c <= n,
            donor@.len() == n,
            state@.len() == n,
            forall|x: int| 0 <= x < n && #[trigger] state@[x] != 0 ==> walk_ends(rc, ld, nv, x) && (state@[x] == 1 <==> walk_connected(rc, ld, nv, x)),
            forall|x: int| 0 <= x < n ==> #[trigger] state@[x] != 0 || nv[x] != 1,
            forall|x: int| 0 <= x < n ==> (#[trigger] donor@[x] <==> exists|d: int|
                0 <= d < n && rc[d] as int == x && d != x && state@[d] == 1),
            expected@ == walk_heads_upto(rc, ld, nv, c as int),
        decreases n - c,
    {
        proof {
            let ci = c as int;
            assert forall|d: int| 0 <= d < n implies (state@[d] == 1 <==> #[trigger] walk_connected(rc, ld, nv, d)) by {
                if state@[d] == 0 {
                    assert(nv[d] != 1);
                    if walk_connected(rc, ld, nv, d) {
                        let kk = choose|kk: nat| #[trigger] walk_connects(rc, ld, nv, d, kk);
                    }
                }
            }
            assert(walk_head(rc, ld, nv, ci) <==> (state@[ci] == 1 && !donor@[ci]));
        }
        if state[c] == 1 && !donor[c] {
            expected.push(c as u32);
        }
        c = c + 1;
    }
    assert forall|x: int| 0 <= x < n implies #[trigger] walk_ends(rc, ld, nv, x) by {
        if state@[x] == 0 {
            assert(walk_breaks(rc, ld, nv, x, 0));
        }
    }
    if heads.len() != expected.len() {
        return false;
    }
    let mut t: usize = 0;
    while t < heads.len()
        invariant
            heads@.len() == expected@.len(),
            expected@ == walk_heads_upto(receivers@, land@, navigable@, n as int),
            n == receivers@.len(),
            t <= heads@.len(),
            forall|u: int| 0 <= u < t ==> heads@[u] == expected@[u],
        decreases heads@.len() - t,
    {
        if heads[t] != expected[t] {
            return false;
        }
        t = t + 1;
    }
    assert(heads@ =~= expected@);
    true
}

/// Along receivers that are each a D8 neighbour, the downstream walk
/// reaches a mouth exactly when the upstream search marks the cell.
proof fn lemma_walk_reaches(w: u32, h: u32, rc: Seq<u32>, land: Seq<bool>, nav: Seq<u32>, i: int, k: nat)
    requires
        grid_ok(w, h),
        rc.len() == w * h,
        d8_receivers(w, h, rc),
        0 <= i < rc.len(),
    ensures
        walk_connects(rc, land, nav, i, k) <==> reaches_mouth(w, h, rc, land, nav, i, k),
    decreases k,
{
    if k > 0 && rc[i] as int != i {
        assert(adjacent8(w as int, h as int, i, rc[i] as int));
        lemma_walk_reaches(w, h, rc, land, nav, rc[i] as int, (k - 1) as nat);
    }
}

proof fn lemma_connected_agrees(w: u32, h: u32, rc: Seq<u32>, land: Seq<bool>, nav: Seq<u32>, i: int)
    requires
        grid_ok(w, h),
        rc.len() == w * h,
        d8_receivers(w, h, rc),
        0 <= i < rc.len(),
    ensures
        walk_connected(rc, land, nav, i) <==> mouth_connected_spec(w, h, rc, land, nav, i),
{
    if walk_connected(rc, land, nav, i) {
        let k = choose|k: nat| #[trigger] walk_connects(rc, land, nav, i, k);
        lemma_walk_reaches(w, h, rc, land, nav, i, k);
    }
    if mouth_connected_spec(w, h, rc, land, nav, i) {
        let k = choose|k: nat| #[trigger] reaches_mouth(w, h, rc, land, nav, i, k);
        lemma_walk_reaches(w, h, rc, land, nav, i, k);
    }
}

/// The heads of navigation and the walk heads are the same cells when
/// every receiver is the cell itself or one of its D8 neighbours; so the
/// check accepts the computed heads whenever every cell's walk ends.
pub proof fn lemma_gate_accepts_heads(w: u32, h: u32, rc: Seq<u32>, land: Seq<bool>, nav: Seq<u32>, k: int)
    requires
        grid_ok(w, h),
        rc.len() == w * h,
        d8_receivers(w, h, rc),
        0 <= k <= rc.len(),
    ensures
        heads_upto(w, h, rc, land, nav, k) == walk_heads_upto(rc, land, nav, k),
    decreases k,
{
    if k > 0 {
        lemma_gate_accepts_heads(w, h, rc, land, nav, k - 1);
        let c = k - 1;
        lemma_connected_agrees(w, h, rc, land, nav, c);
        if exists|nb: int|
            adjacent8(w as int, h as int, c, nb) && rc[nb] as int == c && nb != c
                && #[trigger] mouth_connected_spec(w, h, rc, land, nav, nb) {
            let nb = choose|nb: int|
                adjacent8(w as int, h as int, c, nb) && rc[nb] as int == c && nb != c
                    && #[trigger] mouth_connected_spec(w, h, rc, land, nav, nb);
            lemma_connected_agrees(w, h, rc, land, nav, nb);
            assert(walk_connected(rc, land, nav, nb));
        }
        if exists|i: int| 0 <= i < rc.len() && rc[i] as int == c && i != c && #[trigger] walk_connected(rc, land, nav, i) {
            let i = choose|i: int| 0 <= i < rc.len() && rc[i] as int == c && i != c && #[trigger] walk_connected(rc, land, nav, i);
            lemma_connected_agrees(w, h, rc, land, nav, i);
            assert(adjacent8(w as int, h as int, i, c));
            assert(adjacent8(w as int, h as int, c, i));
            assert(mouth_connected_spec(w, h, rc, land, nav, i));
        }
        assert(is_head(w, h, rc, land, nav, c) <==> walk_head(rc, land, nav, c));
    }
}

/// `c` walks downstream from `c[0]` along receivers, never standing
/// still, through navigable cells, and its last cell drains into a cell
/// that is not land.
pub open spec fn downstream_chain(rc: Seq<u32>, land: Seq<bool>, nav: Seq<u32>, c: Seq<int>) -> bool {
    &&& c.len() >= 1
    &&& forall|j: int| 0 <= j < c.len() ==> 0 <= #[trigger] c[j] < rc.len()
    &&& forall|j: int| 0 <= j < c.len() ==> nav[#[trigger] c[j]] == 1
    &&& forall|j: int|
        0 <= j < c.len() - 1 ==> #[trigger] c[j + 1] == rc[c[j]] as int && c[j + 1] != c[j]
    &&& !land[rc[c[c.len() - 1]] as int]
}

proof fn lemma_walk_gives_chain(
    w: u32,
    h: u32,
    rc: Seq<u32>,
    land: Seq<bool>,
    nav: Seq<u32>,
    i: int,
    k: nat,
) -> (c: Seq<int>)
    requires
        0 <= i < rc.len(),
        rc.len() == w * h,
        reaches_mouth(w, h, rc, land, nav, i, k),
    ensures
        downstream_chain(rc, land, nav, c),
        c[0] == i,
    decreases k,
{
    if !land[rc[i] as int] {
        seq![i]
    } else {
        let r = rc[i] as int;
        let rest = lemma_walk_gives_chain(w, h, rc, land, nav, r, (k - 1) as nat);
        let c = seq![i] + rest;
        assert(c[0] == i && c[1] == rest[0] && rest[0] == r && r != i);
        assert forall|j: int| 0 <= j < c.len() - 1 implies #[trigger] c[j + 1] == rc[c[j]] as int
            && c[j + 1] != c[j] by {
            if j > 0 {
                assert(c[j] == rest[j - 1] && c[j + 1] == rest[j]);
                assert(rest[(j - 1) + 1] == rc[rest[j - 1]] as int);
            }
        }
        assert(c[c.len() - 1] == rest[rest.len() - 1]);
        c
    }
}

proof fn lemma_chain_gives_walk(
    w: u32,
    h: u32,
    rc: Seq<u32>,
    land: Seq<bool>,
    nav: Seq<u32>,
    c: Seq<int>,
)
    requires
        rc.len() == w * h,
        d8_receivers(w, h, rc),
        downstream_chain(rc, land, nav, c),
    ensures
        reaches_mouth(w, h, rc, land, nav, c[0], (c.len() - 1) as nat),
    decreases c.len(),
{
    if c.len() > 1 {
        let rest = c.drop_first();
        assert forall|j: int| 0 <= j < rest.len() - 1 implies #[trigger] rest[j + 1] == rc[rest[j]] as int
            && rest[j + 1] != rest[j] by {
            assert(rest[j] == c[j + 1] && rest[j + 1] == c[j + 2]);
            assert(c[(j + 1) + 1] == rc[c[j + 1]] as int && c[(j + 1) + 1] != c[j + 1]);
        }
        assert(forall|j: int| 0 <= j < rest.len() ==> #[trigger] rest[j] == c[j + 1]);
        assert(rest[rest.len() - 1] == c[c.len() - 1]);
        lemma_chain_gives_walk(w, h, rc, land, nav, rest);
        assert(c[1] == rc[c[0]] as int && c[1] != c[0]);
        assert(adjacent8(w as int, h as int, c[0], rc[c[0]] as int));
    }
}

/// Where every receiver is its own cell or a D8 neighbour, a cell is
/// mouth-connected exactly when a downstream chain of navigable cells
/// leads from it to a cell draining into non-land.
pub proof fn lemma_mouth_connected_chain(w: u32, h: u32, rc: Seq<u32>, land: Seq<bool>, nav: Seq<u32>, i: int)
    requires
        rc.len() == w * h,
        d8_receivers(w, h, rc),
        0 <= i < rc.len(),
    ensures
        mouth_connected_spec(w, h, rc, land, nav, i) <==> exists|c: Seq<int>|
            downstream_chain(rc, land, nav, c) && #[trigger] c[0] == i,
{
    if mouth_connected_spec(w, h, rc, land, nav, i) {
        let k = choose|k: nat| #[trigger] reaches_mouth(w, h, rc, land, nav, i, k);
        let c = lemma_walk_gives_chain(w, h, rc, land, nav, i, k);
        assert(downstream_chain(rc, land, nav, c) && c[0] == i);
    }
    if exists|c: Seq<int>| downstream_chain(rc, land, nav, c) && #[trigger] c[0] == i {
        let c = choose|c: Seq<int>| downstream_chain(rc, land, nav, c) && #[trigger] c[0] == i;
        lemma_chain_gives_walk(w, h, rc, land, nav, c);
        assert(reaches_mouth(w, h, rc, land, nav, i, (c.len() - 1) as nat));
    }
}

} // verus!
