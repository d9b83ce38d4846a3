//! Confluence sites, definitional on the inverted receivers tree: a
//! river cell (Strahler order > 0) with two or more river donors. The
//! importance of a site is the symmetry of its two largest river donors'
//! drainage, taken exactly from the drainage-area field.

use vstd::prelude::*;

use crate::flow::receivers_in_range;
use crate::grid::{adjacent8, grid_ok, grid_part, on_grid, lemma_adjacent_in_neighbors, lemma_neighbors_distinct, neighbors, neighbors8};

verus! {

/// The river donors among the cells `ns`, in their order: cells that
/// drain into `c`, are not `c` itself, and carry a Strahler order.
pub open spec fn river_donors_in(ns: Seq<u32>, rc: Seq<u32>, st: Seq<u32>, c: int) -> Seq<u32>
    decreases ns.len(),
{
    if ns.len() == 0 {
        Seq::empty()
    } else {
        let p = river_donors_in(ns.drop_last(), rc, st, c);
        let nb = ns.last() as int;
        if rc[nb] as int == c && nb != c && st[nb] > 0 {
            p.push(ns.last())
        } else {
            p
        }
    }
}

/// River donors of `c`: its D8 neighbours, in scan order, that are river
/// cells draining into `c`.
pub open spec fn river_donors(w: u32, h: u32, rc: Seq<u32>, st: Seq<u32>, c: int) -> Seq<u32> {
    river_donors_in(neighbors8(w as int, h as int, c), rc, st, c)
}

proof fn lemma_river_donors_in(ns: Seq<u32>, rc: Seq<u32>, st: Seq<u32>, c: int)
    ensures
        river_donors_in(ns, rc, st, c).len() <= ns.len(),
        forall|j: int|
            0 <= j < river_donors_in(ns, rc, st, c).len() ==> ns.contains(
                #[trigger] river_donors_in(ns, rc, st, c)[j],
            ),
    decreases ns.len(),
{
    if ns.len() > 0 {
        lemma_river_donors_in(ns.drop_last(), rc, st, c);
        let p = river_donors_in(ns.drop_last(), rc, st, c);
        assert forall|j: int| 0 <= j < p.len() implies ns.contains(#[trigger] p[j]) by {
            let k = choose|k: int| 0 <= k < ns.drop_last().len() && ns.drop_last()[k] == p[j];
            assert(ns[k] == p[j]);
        }
        assert(ns[ns.len() - 1] == ns.last());
    }
}

/// [`river_donors_of`] on slices of exactly `w × h` entries.
fn river_donors_of_in_grid(w: u32, h: u32, cell: u32, receivers: &[u32], strahler: &[u32]) -> (r: Vec<u32>)
    requires
        grid_ok(w, h),
        (cell as int) < w * h,
        receivers@.len() == w * h,
        strahler@.len() == w * h,
    ensures
        r@ == river_donors(w, h, receivers@, strahler@, cell as int),
        r@.len() <= 8,
        forall|j: int| 0 <= j < r@.len() ==> (#[trigger] r@[j] as int) < w * h,
{
    let ns = neighbors(w, h, cell);
    let ghost nsv = ns@;
    let mut out: Vec<u32> = Vec::new();
    let mut k: usize = 0;
    proof {
        assert(nsv.take(0) =~= Seq::<u32>::empty());
    }
    while k < ns.len()
        invariant
            k <= ns@.len(),
            ns@ == nsv,
            nsv == neighbors8(w as int, h as int, cell as int),
            forall|j: int| 0 <= j < nsv.len() ==> (#[trigger] nsv[j] as int) < w * h,
            receivers@.len() == w * h,
            strahler@.len() == w * h,
            out@ == river_donors_in(nsv.take(k as int), receivers@, strahler@, cell as int),
        decreases ns@.len() - k,
    {
        let nb = ns[k];
        proof {
            assert(nsv.take(k as int + 1).drop_last() =~= nsv.take(k as int));
            assert(nsv.take(k as int + 1).last() == nb);
        }
        if receivers[nb as usize] == cell && nb != cell && strahler[nb as usize] > 0 {
            out.push(nb);
        }
        k = k + 1;
    }
    proof {
        assert(nsv.take(nsv.len() as int) =~= nsv);
        lemma_river_donors_in(nsv, receivers@, strahler@, cell as int);
        assert forall|j: int| 0 <= j < out@.len() implies (#[trigger] out@[j] as int) < w * h by {
            assert(nsv.contains(out@[j]));
        }
    }
    out
}

/// River donors of `cell`: D8 neighbours that are river cells and whose
/// receiver is `cell`, in the fixed neighbour scan order.
pub fn river_donors_of(w: u32, h: u32, cell: u32, receivers: &[u32], strahler: &[u32]) -> (r: Vec<u32>)
    requires
        grid_ok(w, h),
        (cell as int) < w * h,
        receivers@.len() >= w * h,
        strahler@.len() >= w * h,
    ensures
        r@ == river_donors(w, h, on_grid(w, h, receivers@), on_grid(w, h, strahler@), cell as int),
        r@.len() <= 8,
        forall|j: int| 0 <= j < r@.len() ==> (#[trigger] r@[j] as int) < w * h,
{
    let receivers = grid_part(w, h, receivers);
    let strahler = grid_part(w, h, strahler);
    river_donors_of_in_grid(w, h, cell, receivers, strahler)
}

/// Positions `i` and `j` of `a` hold its two largest values `l` and `s`:
/// `l` bounds everything, `s` bounds everything but position `i`.
pub open spec fn top_two_at(a: Seq<u64>, i: int, j: int, l: u64, s: u64) -> bool {
    &&& 0 <= i < a.len()
    &&& 0 <= j < a.len()
    &&& i != j
    &&& a[i] == l
    &&& a[j] == s
    &&& forall|k: int| 0 <= k < a.len() ==> #[trigger] a[k] <= l
    &&& forall|k: int| 0 <= k < a.len() && k != i ==> #[trigger] a[k] <= s
}

/// `l` and `s` are the two largest values of `a`, counted with
/// multiplicity.
pub open spec fn top_two(a: Seq<u64>, l: u64, s: u64) -> bool {
    exists|i: int, j: int| #[trigger] top_two_at(a, i, j, l, s)
}

/// The two largest values are determined by the values alone.
pub proof fn lemma_top_two_unique(a: Seq<u64>, l1: u64, s1: u64, l2: u64, s2: u64)
    requires
        top_two(a, l1, s1),
        top_two(a, l2, s2),
    ensures
        l1 == l2,
        s1 == s2,
{
    let (i1, j1) = choose|i: int, j: int| #[trigger] top_two_at(a, i, j, l1, s1);
    let (i2, j2) = choose|i: int, j: int| #[trigger] top_two_at(a, i, j, l2, s2);
    assert(a[i1] <= l2 && a[i2] <= l1);
    if i1 == i2 {
        assert(a[j1] <= s2);
        assert(a[j2] <= s1);
    } else {
        assert(a[i2] <= s1);
        assert(a[i1] <= s2);
    }
}

/// Drainage areas of the given cells.
pub open spec fn areas_of(cells: Seq<u32>, area: Seq<u64>) -> Seq<u64> {
    cells.map_values(|c: u32| area[c as int])
}

/// One confluence site: a river cell with two or more river donors, with
/// the exact drainage of its two largest river donors (their ratio is the
/// Benda et al. (2004) symmetry ratio).
#[derive(Clone, Copy, Debug, PartialEq, Eq)]
pub struct ConfluenceSite {
    /// Flat cell index of the junction (row-major, y·w + x).
    pub cell: u32,
    pub x: u32,
    pub y: u32,
    /// Strahler order of the junction cell.
    pub strahler: u32,
    /// Number of river donors.
    pub river_donors: u32,
    /// Upslope cell counts of the two largest river donors.
    pub donor_area_cells_larger: u64,
    pub donor_area_cells_smaller: u64,
}

/// `c` is a confluence: a river cell with at least two river donors.
pub open spec fn is_confluence(w: u32, h: u32, rc: Seq<u32>, st: Seq<u32>, c: int) -> bool {
    st[c] > 0 && river_donors(w, h, rc, st, c).len() >= 2
}

/// The confluence cells among `0..k`, ascending.
pub open spec fn confluences_upto(w: u32, h: u32, rc: Seq<u32>, st: Seq<u32>, k: int) -> Seq<u32>
    decreases k,
{
    if k <= 0 {
        Seq::empty()
    } else if is_confluence(w, h, rc, st, k - 1) {
        confluences_upto(w, h, rc, st, k - 1).push((k - 1) as u32)
    } else {
        confluences_upto(w, h, rc, st, k - 1)
    }
}

/// The record `detect` emits for confluence cell `c`.
pub open spec fn site_describes(
    w: u32,
    h: u32,
    rc: Seq<u32>,
    st: Seq<u32>,
    area: Seq<u64>,
    s: ConfluenceSite,
) -> bool {
    let ds = river_donors(w, h, rc, st, s.cell as int);
    &&& s.x == s.cell % w
    &&& s.y == s.cell / w
    &&& s.strahler == st[s.cell as int]
    &&& s.river_donors == ds.len()
    &&& top_two(areas_of(ds, area), s.donor_area_cells_larger, s.donor_area_cells_smaller)
}

fn largest_two(cells: &Vec<u32>, area: &[u64]) -> (r: (u64, u64))
    requires
        cells@.len() >= 2,
        forall|j: int| 0 <= j < cells@.len() ==> (#[trigger] cells@[j] as int) < area@.len(),
    ensures
        top_two(areas_of(cells@, area@), r.0, r.1),
{
    let ghost a = areas_of(cells@, area@);
    let a0 = area[cells[0] as usize];
    let a1 = area[cells[1] as usize];
    let (mut l, mut s, mut il, mut is) = if a0 >= a1 {
        (a0, a1, 0usize, 1usize)
    } else {
        (a1, a0, 1usize, 0usize)
    };
    let mut k: usize = 2;
    while k < cells.len()
        invariant
            2 <= k <= cells@.len(),
            a == areas_of(cells@, area@),
            forall|j: int| 0 <= j < cells@.len() ==> (#[trigger] cells@[j] as int) < area@.len(),
            il < k,
            is < k,
            il != is,
            a[il as int] == l,
            a[is as int] == s,
            forall|j: int| 0 <= j < k ==> #[trigger] a[j] <= l,
            forall|j: int| 0 <= j < k && j != il ==> #[trigger] a[j] <= s,
        decreases cells@.len() - k,
    {
        let v = area[cells[k] as usize];
        proof {
            assert(a[k as int] == v);
        }
        if v > l {
            s = l;
            is = il;
            l = v;
            il = k;
        } else if v > s {
            s = v;
            is = k;
        }
        k = k + 1;
    }
    proof {
        assert(a.len() == cells@.len());
        assert(top_two_at(a, il as int, is as int, l, s));
    }
    (l, s)
}

/// [`detect`] on slices of exactly `w × h` entries.
fn detect_in_grid(
    w: u32,
    h: u32,
    receivers: &[u32],
    strahler: &[u32],
    area_cells: &[u64],
) -> (sites: Vec<ConfluenceSite>)
    requires
        w * h <= u32::MAX,
        receivers@.len() == w * h,
        strahler@.len() == w * h,
        area_cells@.len() == w * h,
    ensures
        sites@.len() == confluences_upto(w, h, receivers@, strahler@, w * h).len(),
        forall|j: int|
            0 <= j < sites@.len() ==> (#[trigger] sites@[j]).cell == confluences_upto(
                w,
                h,
                receivers@,
                strahler@,
                w * h,
            )[j],
        forall|j: int|
            0 <= j < sites@.len() ==> site_describes(
                w,
                h,
                receivers@,
                strahler@,
                area_cells@,
                #[trigger] sites@[j],
            ),
{
    if w == 0 || h == 0 {
        proof {
            assert(w * h == 0) by (nonlinear_arith)
                requires
                    w == 0 || h == 0,
            ;
        }
        return Vec::new();
    }
    let n: u32 = w * h;
    let mut sites: Vec<ConfluenceSite> = Vec::new();
    let mut cell: u32 = 0;
    while cell < n
        invariant
            grid_ok(w, h),
            n == w * h,
            cell <= n,
            receivers@.len() == w * h,
            strahler@.len() == w * h,
            area_cells@.len() == w * h,
            sites@.len() == confluences_upto(w, h, receivers@, strahler@, cell as int).len(),
            forall|j: int|
                0 <= j < sites@.len() ==> (#[trigger] sites@[j]).cell == confluences_upto(
                    w,
                    h,
                    receivers@,
                    strahler@,
                    cell as int,
                )[j],
            forall|j: int|
                0 <= j < sites@.len() ==> site_describes(
                    w,
                    h,
                    receivers@,
                    strahler@,
                    area_cells@,
                    #[trigger] sites@[j],
                ),
        decreases n - cell,
    {
        let ghost before = sites@;
        if strahler[cell as usize] > 0 {
            let donors = river_donors_of_in_grid(w, h, cell, receivers, strahler);
            if donors.len() >= 2 {
                let (larger, smaller) = largest_two(&donors, area_cells);
                let site = ConfluenceSite {
                    cell,
                    x: cell % w,
                    y: cell / w,
                    strahler: strahler[cell as usize],
                    river_donors: donors.len() as u32,
                    donor_area_cells_larger: larger,
                    donor_area_cells_smaller: smaller,
                };
                sites.push(site);
                proof {
                    assert forall|j: int| 0 <= j < sites@.len() implies (#[trigger] sites@[j]).cell
                        == confluences_upto(w, h, receivers@, strahler@, cell as int + 1)[j] by {
                        if j < before.len() {
                            assert(sites@[j] == before[j]);
                        }
                    }
                    assert forall|j: int| 0 <= j < sites@.len() implies site_describes(
                        w,
                        h,
                        receivers@,
                        strahler@,
                        area_cells@,
                        #[trigger] sites@[j],
                    ) by {
                        if j < before.len() {
                            assert(sites@[j] == before[j]);
                        }
                    }
                }
            }
        }
        cell = cell + 1;
    }
    sites
}

/// Detect all confluence sites, in ascending cell order.
pub fn detect(
    w: u32,
    h: u32,
    receivers: &[u32],
    strahler: &[u32],
    area_cells: &[u64],
) -> (sites: Vec<ConfluenceSite>)
    requires
        w * h <= u32::MAX,
        receivers@.len() >= w * h,
        strahler@.len() >= w * h,
        area_cells@.len() >= w * h,
    ensures
        sites@.len() == confluences_upto(w, h, on_grid(w, h, receivers@), on_grid(w, h, strahler@), w * h).len(),
        forall|j: int|
            0 <= j < sites@.len() ==> (#[trigger] sites@[j]).cell == confluences_upto(
                w,
                h,
                on_grid(w, h, receivers@),
                on_grid(w, h, strahler@),
                w * h,
            )[j],
        forall|j: int|
            0 <= j < sites@.len() ==> site_describes(
                w,
                h,
                on_grid(w, h, receivers@),
                on_grid(w, h, strahler@),
                on_grid(w, h, area_cells@),
                #[trigger] sites@[j],
            ),
{
    let receivers = grid_part(w, h, receivers);
    let strahler = grid_part(w, h, strahler);
    let area_cells = grid_part(w, h, area_cells);
    detect_in_grid(w, h, receivers, strahler, area_cells)
}

/// Number of river cells among `0..k` that drain into `c`.
pub open spec fn river_inflow(rc: Seq<u32>, st: Seq<u32>, c: int, k: int) -> nat
    decreases k,
{
    if k <= 0 {
        0
    } else if rc[k - 1] as int == c && k - 1 != c && st[k - 1] > 0 {
        river_inflow(rc, st, c, k - 1) + 1
    } else {
        river_inflow(rc, st, c, k - 1)
    }
}

proof fn lemma_river_inflow_bound(rc: Seq<u32>, st: Seq<u32>, c: int, k: int)
    requires
        k >= 0,
    ensures
        river_inflow(rc, st, c, k) <= k,
    decreases k,
{
    if k > 0 {
        lemma_river_inflow_bound(rc, st, c, k - 1);
    }
}

/// River cells among `0..k` that receive at least two river cells, by
/// the whole-grid receiver count, ascending.
pub open spec fn gate_cells_upto(rc: Seq<u32>, st: Seq<u32>, k: int) -> Seq<u32>
    decreases k,
{
    if k <= 0 {
        Seq::empty()
    } else if st[k - 1] > 0 && river_inflow(rc, st, k - 1, rc.len() as int) >= 2 {
        gate_cells_upto(rc, st, k - 1).push((k - 1) as u32)
    } else {
        gate_cells_upto(rc, st, k - 1)
    }
}

/// What the confluence-definition gate accepts: the emitted cells are
/// exactly the river cells that two or more river cells drain into, in
/// ascending order, and each site's donor count is that whole-grid count.
pub open spec fn definition_holds(rc: Seq<u32>, st: Seq<u32>, sites: Seq<ConfluenceSite>) -> bool {
    let expected = gate_cells_upto(rc, st, rc.len() as int);
    &&& sites.len() == expected.len()
    &&& forall|j: int| 0 <= j < sites.len() ==> (#[trigger] sites[j]).cell == expected[j]
    &&& forall|j: int|
        0 <= j < sites.len() ==> (#[trigger] sites[j]).river_donors == river_inflow(
            rc,
            st,
            sites[j].cell as int,
            rc.len() as int,
        )
}

/// [`verify_definition`] on slices of exactly `w × h` entries.
fn verify_definition_in_grid(
    w: u32,
    h: u32,
    receivers: &[u32],
    strahler: &[u32],
    sites: &[ConfluenceSite],
) -> (ok: bool)
    requires
        w * h <= u32::MAX,
        receivers@.len() == w * h,
        strahler@.len() == w * h,
        receivers_in_range(receivers@),
    ensures
        ok == definition_holds(receivers@, strahler@, sites@),
{
    if w == 0 || h == 0 {
        proof {
            assert(w * h == 0) by (nonlinear_arith)
                requires
                    w == 0 || h == 0,
            ;
        }
        return sites.len() == 0;
    }
    let n: usize = (w * h) as usize;
    let ghost rc = receivers@;
    let ghost st = strahler@;
    let mut donor_count: Vec<u32> = Vec::new();
    let mut i: usize = 0;
    while i < n
        invariant
            i <= n,
            donor_count@.len() == i,
            forall|c: int| 0 <= c < i ==> #[trigger] donor_count@[c] == 0,
        decreases n - i,
    {
        donor_count.push(0);
        i = i + 1;
    }
    i = 0;
    while i < n
        invariant
            n == w * h,
            n <= u32::MAX,
            i <= n,
            rc == receivers@,
            st == strahler@,
            rc.len() == n,
            st.len() == n,
            receivers_in_range(rc),
            donor_count@.len() == n,
            forall|c: int| 0 <= c < n ==> #[trigger] donor_count@[c] == river_inflow(rc, st, c, i as int),
        decreases n - i,
    {
        let r = receivers[i] as usize;
        proof {
            assert((rc[i as int] as int) < rc.len());
        }
        if r != i && strahler[i] > 0 {
            proof {
                lemma_river_inflow_bound(rc, st, r as int, i as int);
            }
            let v = donor_count[r] + 1;
            donor_count.set(r, v);
        }
        proof {
            assert forall|c: int| 0 <= c < n implies #[trigger] donor_count@[c] == river_inflow(
                rc,
                st,
                c,
                i as int + 1,
            ) by {}
        }
        i = i + 1;
    }
    let mut expected: Vec<u32> = Vec::new();
    let mut c: usize = 0;
    while c < n
        invariant
            n == w * h,
            n <= u32::MAX,
            c <= n,
            rc == receivers@,
            st == strahler@,
            rc.len() == n,
            st.len() == n,
            donor_count@.len() == n,
            forall|k: int| 0 <= k < n ==> #[trigger] donor_count@[k] == river_inflow(rc, st, k, n as int),
            expected@ == gate_cells_upto(rc, st, c as int),
        decreases n - c,
    {
        if strahler[c] > 0 && donor_count[c] >= 2 {
            expected.push(c as u32);
        }
        c = c + 1;
    }
    if sites.len() != expected.len() {
        return false;
    }
    let mut j: usize = 0;
    while j < sites.len()
        invariant
            j <= sites@.len(),
            sites@.len() == expected@.len(),
            rc == receivers@,
            st == strahler@,
            rc.len() == n,
            expected@ == gate_cells_upto(rc, st, n as int),
            forall|k: int| 0 <= k < j ==> (#[trigger] sites@[k]).cell == expected@[k],
        decreases sites@.len() - j,
    {
        if sites[j].cell != expected[j] {
            proof {
                assert(sites@[j as int].cell != expected@[j as int]);
            }
            return false;
        }
        j = j + 1;
    }
    proof {
        lemma_gate_cells_in_range(rc, st, n as int);
    }
    j = 0;
    while j < sites.len()
        invariant
            rc == receivers@,
            st == strahler@,
            n == rc.len(),
            j <= sites@.len(),
            sites@.len() == expected@.len(),
            expected@ == gate_cells_upto(rc, st, n as int),
            forall|k: int| 0 <= k < expected@.len() ==> (#[trigger] expected@[k] as int) < n,
            forall|k: int| 0 <= k < sites@.len() ==> (#[trigger] sites@[k]).cell == expected@[k],
            donor_count@.len() == n,
            forall|k: int| 0 <= k < n ==> #[trigger] donor_count@[k] == river_inflow(rc, st, k, n as int),
            forall|k: int|
                0 <= k < j ==> (#[trigger] sites@[k]).river_donors == river_inflow(
                    rc,
                    st,
                    sites@[k].cell as int,
                    n as int,
                ),
        decreases sites@.len() - j,
    {
        let cell = sites[j].cell;
        proof {
            assert(sites@[j as int].cell == expected@[j as int]);
        }
        if sites[j].river_donors != donor_count[cell as usize] {
            proof {
                assert(sites@[j as int].river_donors != river_inflow(
                    rc,
                    st,
                    sites@[j as int].cell as int,
                    rc.len() as int,
                ));
            }
            return false;
        }
        j = j + 1;
    }
    true
}

/// The confluence-definition gate: recounts river donors by a full sweep
/// over the receivers (a different traversal than `detect`'s neighbour
/// scan) and accepts the sites only if they are exactly the river cells
/// with two or more river donors, with matching donor counts.
pub fn verify_definition(
    w: u32,
    h: u32,
    receivers: &[u32],
    strahler: &[u32],
    sites: &[ConfluenceSite],
) -> (ok: bool)
    requires
        w * h <= u32::MAX,
        receivers@.len() >= w * h,
        strahler@.len() >= w * h,
        receivers_in_range(on_grid(w, h, receivers@)),
    ensures
        ok == definition_holds(on_grid(w, h, receivers@), on_grid(w, h, strahler@), sites@),
{
    let receivers = grid_part(w, h, receivers);
    let strahler = grid_part(w, h, strahler);
    verify_definition_in_grid(w, h, receivers, strahler, sites)
}

proof fn lemma_gate_cells_in_range(rc: Seq<u32>, st: Seq<u32>, k: int)
    requires
        0 <= k <= u32::MAX + 1,
    ensures
        forall|j: int|
            0 <= j < gate_cells_upto(rc, st, k).len() ==> (#[trigger] gate_cells_upto(rc, st, k)[j]
                as int) < k,
    decreases k,
{
    if k > 0 {
        lemma_gate_cells_in_range(rc, st, k - 1);
        let p = gate_cells_upto(rc, st, k - 1);
        let q = gate_cells_upto(rc, st, k);
        assert forall|j: int| 0 <= j < q.len() implies (#[trigger] q[j] as int) < k by {
            if j < p.len() {
                assert(q[j] == p[j]);
            }
        }
    }
}

/// Every cell that does not receive itself drains to a D8 neighbour.
pub open spec fn d8_receivers(w: u32, h: u32, rc: Seq<u32>) -> bool {
    forall|i: int| 0 <= i < rc.len() && #[trigger] rc[i] as int != i ==> adjacent8(w as int, h as int, i, rc[i] as int)
}

/// The river cells among `0..k` that drain into `c`, ascending.
pub open spec fn inflow_cells(rc: Seq<u32>, st: Seq<u32>, c: int, k: int) -> Seq<u32>
    decreases k,
{
    if k <= 0 {
        Seq::empty()
    } else if rc[k - 1] as int == c && k - 1 != c && st[k - 1] > 0 {
        inflow_cells(rc, st, c, k - 1).push((k - 1) as u32)
    } else {
        inflow_cells(rc, st, c, k - 1)
    }
}

proof fn lemma_inflow_cells(rc: Seq<u32>, st: Seq<u32>, c: int, k: int)
    requires
        0 <= k <= u32::MAX + 1,
    ensures
        inflow_cells(rc, st, c, k).len() == river_inflow(rc, st, c, k),
        inflow_cells(rc, st, c, k).no_duplicates(),
        forall|x: u32|
            #[trigger] inflow_cells(rc, st, c, k).contains(x) <==> ((x as int) < k && rc[x as int] as int == c
                && x as int != c && st[x as int] > 0),
    decreases k,
{
    if k > 0 {
        lemma_inflow_cells(rc, st, c, k - 1);
        let p = inflow_cells(rc, st, c, k - 1);
        let q = inflow_cells(rc, st, c, k);
        if rc[k - 1] as int == c && k - 1 != c && st[k - 1] > 0 {
            assert(q == p.push((k - 1) as u32));
            assert(!p.contains((k - 1) as u32));
            assert forall|a: int, b: int| 0 <= a < q.len() && 0 <= b < q.len() && a != b implies q[a] != q[b] by {
                if a < p.len() && b < p.len() {
                    assert(q[a] == p[a] && q[b] == p[b]);
                } else if a < p.len() {
                    assert(q[a] == p[a]);
                    assert(p.contains(p[a]));
                } else {
                    assert(q[b] == p[b]);
                    assert(p.contains(p[b]));
                }
            }
            assert forall|x: u32| q.contains(x) <==> ((x as int) < k && rc[x as int] as int == c && x as int != c
                && st[x as int] > 0) by {
                assert(p.contains(x) <==> ((x as int) < k - 1 && rc[x as int] as int == c && x as int != c
                    && st[x as int] > 0));
                if x as int == k - 1 {
                    assert(q[p.len() as int] == x);
                } else {
                    if q.contains(x) {
                        let j = choose|j: int| 0 <= j < q.len() && q[j] == x;
                        if j < p.len() {
                            assert(q[j] == p[j]);
                            assert(p.contains(x));
                        } else {
                            assert(q[j] == (k - 1) as u32);
                        }
                    }
                    if p.contains(x) {
                        let j = choose|j: int| 0 <= j < p.len() && p[j] == x;
                        assert(q[j] == p[j]);
                    }
                }
            }
        } else {
            assert(q == p);
            assert forall|x: u32| q.contains(x) <==> ((x as int) < k && rc[x as int] as int == c && x as int != c
                && st[x as int] > 0) by {
                assert(p.contains(x) <==> ((x as int) < k - 1 && rc[x as int] as int == c && x as int != c
                    && st[x as int] > 0));
            }
        }
    }
}

proof fn lemma_river_donors_members(ns: Seq<u32>, rc: Seq<u32>, st: Seq<u32>, c: int)
    requires
        ns.no_duplicates(),
    ensures
        river_donors_in(ns, rc, st, c).no_duplicates(),
        forall|x: u32|
            #[trigger] river_donors_in(ns, rc, st, c).contains(x) <==> (ns.contains(x) && rc[x as int] as int == c
                && x as int != c && st[x as int] > 0),
    decreases ns.len(),
{
    if ns.len() > 0 {
        let q = ns.drop_last();
        assert(q.no_duplicates()) by {
            assert forall|a: int, b: int| 0 <= a < q.len() && 0 <= b < q.len() && a != b implies q[a] != q[b] by {
                assert(q[a] == ns[a] && q[b] == ns[b]);
            }
        }
        lemma_river_donors_members(q, rc, st, c);
        let p = river_donors_in(q, rc, st, c);
        let d = river_donors_in(ns, rc, st, c);
        let l = ns.last();
        assert(!q.contains(l)) by {
            if q.contains(l) {
                let j = choose|j: int| 0 <= j < q.len() && q[j] == l;
                assert(ns[j] == ns[ns.len() - 1]);
            }
        }
        assert forall|x: u32| ns.contains(x) <==> (q.contains(x) || x == l) by {
            if ns.contains(x) {
                let j = choose|j: int| 0 <= j < ns.len() && ns[j] == x;
                if j < ns.len() - 1 {
                    assert(q[j] == x);
                }
            }
            if q.contains(x) {
                let j = choose|j: int| 0 <= j < q.len() && q[j] == x;
                assert(ns[j] == x);
            }
            if x == l {
                assert(ns[ns.len() - 1] == x);
            }
        }
        if rc[l as int] as int == c && l as int != c && st[l as int] > 0 {
            assert(d == p.push(l));
            assert(!p.contains(l));
            assert forall|a: int, b: int| 0 <= a < d.len() && 0 <= b < d.len() && a != b implies d[a] != d[b] by {
                if a < p.len() && b < p.len() {
                    assert(d[a] == p[a] && d[b] == p[b]);
                } else if a < p.len() {
                    assert(d[a] == p[a]);
                    assert(p.contains(p[a]));
                } else {
                    assert(d[b] == p[b]);
                    assert(p.contains(p[b]));
                }
            }
            assert forall|x: u32| d.contains(x) <==> (p.contains(x) || x == l) by {
                if d.contains(x) {
                    let j = choose|j: int| 0 <= j < d.len() && d[j] == x;
                    if j < p.len() {
                        assert(d[j] == p[j]);
                    }
                }
                if p.contains(x) {
                    let j = choose|j: int| 0 <= j < p.len() && p[j] == x;
                    assert(d[j] == p[j]);
                }
                if x == l {
                    assert(d[p.len() as int] == x);
                }
            }
        }
    }
}

/// On a D8 receiver field the neighbour scan finds every river donor:
/// the donor list of `c` is as long as the whole-grid count.
pub proof fn lemma_donor_count(w: u32, h: u32, rc: Seq<u32>, st: Seq<u32>, c: int)
    requires
        grid_ok(w, h),
        rc.len() == w * h,
        st.len() == w * h,
        0 <= c < w * h,
        d8_receivers(w, h, rc),
    ensures
        river_donors(w, h, rc, st, c).len() == river_inflow(rc, st, c, rc.len() as int),
{
    let n = rc.len() as int;
    let ns = neighbors8(w as int, h as int, c);
    lemma_neighbors_distinct(w as int, h as int, c, 8);
    lemma_river_donors_members(ns, rc, st, c);
    lemma_inflow_cells(rc, st, c, n);
    let d = river_donors(w, h, rc, st, c);
    assert(d == river_donors_in(ns, rc, st, c));
    let e = inflow_cells(rc, st, c, n);
    crate::grid::lemma_neighbors(w as int, h as int, c, 8);
    assert forall|x: u32| d.contains(x) <==> e.contains(x) by {
        if d.contains(x) {
            assert(ns.contains(x));
            let j = choose|j: int| 0 <= j < ns.len() && ns[j] == x;
            assert(adjacent8(w as int, h as int, c, ns[j] as int));
        }
        if e.contains(x) {
            assert(rc[x as int] as int != x as int);
            assert(adjacent8(w as int, h as int, x as int, rc[x as int] as int));
            assert(adjacent8(w as int, h as int, c, x as int));
            lemma_adjacent_in_neighbors(w as int, h as int, c, x as int);
        }
    }
    assert(d.to_set() =~= e.to_set());
    d.unique_seq_to_set();
    e.unique_seq_to_set();
}

proof fn lemma_cells_agree(w: u32, h: u32, rc: Seq<u32>, st: Seq<u32>, k: int)
    requires
        grid_ok(w, h),
        rc.len() == w * h,
        st.len() == w * h,
        0 <= k <= w * h,
        d8_receivers(w, h, rc),
    ensures
        confluences_upto(w, h, rc, st, k) == gate_cells_upto(rc, st, k),
    decreases k,
{
    if k > 0 {
        lemma_cells_agree(w, h, rc, st, k - 1);
        lemma_donor_count(w, h, rc, st, k - 1);
    }
}

/// Detector and gate agree: when every receiver is a D8 neighbour, the
/// confluence sites satisfy the whole-grid definition.
pub proof fn lemma_gate_accepts_detect(
    w: u32,
    h: u32,
    rc: Seq<u32>,
    st: Seq<u32>,
    area: Seq<u64>,
    sites: Seq<ConfluenceSite>,
)
    requires
        grid_ok(w, h),
        rc.len() == w * h,
        st.len() == w * h,
        d8_receivers(w, h, rc),
        sites.len() == confluences_upto(w, h, rc, st, w * h).len(),
        forall|j: int| 0 <= j < sites.len() ==> (#[trigger] sites[j]).cell == confluences_upto(w, h, rc, st, w * h)[j],
        forall|j: int| 0 <= j < sites.len() ==> site_describes(w, h, rc, st, area, #[trigger] sites[j]),
    ensures
        definition_holds(rc, st, sites),
{
    lemma_cells_agree(w, h, rc, st, w * h);
    assert forall|j: int| 0 <= j < sites.len() implies (#[trigger] sites[j]).river_donors == river_inflow(
        rc,
        st,
        sites[j].cell as int,
        rc.len() as int,
    ) by {
        lemma_confluence_cells_in_range(w, h, rc, st, w * h);
        lemma_donor_count(w, h, rc, st, sites[j].cell as int);
    }
}

proof fn lemma_confluence_cells_in_range(w: u32, h: u32, rc: Seq<u32>, st: Seq<u32>, k: int)
    requires
        0 <= k <= u32::MAX + 1,
    ensures
        forall|j: int|
            0 <= j < confluences_upto(w, h, rc, st, k).len() ==> (#[trigger] confluences_upto(w, h, rc, st, k)[j]
                as int) < k,
    decreases k,
{
    if k > 0 {
        lemma_confluence_cells_in_range(w, h, rc, st, k - 1);
        let p = confluences_upto(w, h, rc, st, k - 1);
        let q = confluences_upto(w, h, rc, st, k);
        assert forall|j: int| 0 <= j < q.len() implies (#[trigger] q[j] as int) < k by {
            if j < p.len() {
                assert(q[j] == p[j]);
            }
        }
    }
}

} // verus!
