//! Corridor stage, integer core: output namespacing, the lattice spacing
//! guard, the gateway node set (passes, heads of navigation, river
//! mouths) and the records of the trunk network.

use vstd::prelude::*;

use crate::components::{count_first, edge_graph, edge_upto, first_member, label_components};
use crate::connect::{connected, lemma_connected_mono};
use crate::grid::{grid_ok, grid_part, on_grid};
use crate::order::{sort_u64, sorted_u64};
use crate::text::{is_valid_label, join, join_spec, valid_label, InvalidLabel};

verus! {

/// Output namespace labels of this stage must be non-empty and match
/// `[a-z0-9_-]+`.
pub fn validate_label(label: &str) -> (r: Result<(), InvalidLabel>)
    ensures
        r is Ok <==> valid_label(label@, true),
{
    if is_valid_label(label, true) {
        Ok(())
    } else {
        Err(InvalidLabel)
    }
}

/// Namespaced raster filename: `corridors.<label>.<name>.vrast`.
pub fn raster_filename(label: &str, name: &str) -> (r: String)
    ensures
        r@ == "corridors."@ + label@ + "."@ + name@ + ".vrast"@,
{
    let parts = ["corridors.", label, ".", name, ".vrast"];
    let r = join(&parts);
    proof {
        assert(parts@ =~= seq!["corridors.", label, ".", name, ".vrast"]);
        reveal_with_fuel(join_spec, 6);
    }
    r
}

/// Namespaced stage-summary filename: `corridors.<label>.json`.
pub fn summary_filename(label: &str) -> (r: String)
    ensures
        r@ == "corridors."@ + label@ + ".json"@,
{
    let parts = ["corridors.", label, ".json"];
    let r = join(&parts);
    proof {
        assert(parts@ =~= seq!["corridors.", label, ".json"]);
        reveal_with_fuel(join_spec, 4);
    }
    r
}

/// The suitability raster this stage consumes:
/// `suitability.<label>.<name>.vrast`.
pub fn via_suit_raster_filename(label: &str, name: &str) -> (r: String)
    ensures
        r@ == "suitability."@ + label@ + "."@ + name@ + ".vrast"@,
{
    let parts = ["suitability.", label, ".", name, ".vrast"];
    let r = join(&parts);
    proof {
        assert(parts@ =~= seq!["suitability.", label, ".", name, ".vrast"]);
        reveal_with_fuel(join_spec, 6);
    }
    r
}

/// `⌈a / b⌉`.
pub open spec fn ceil_div(a: int, b: int) -> int {
    (a + b - 1) / b
}

/// The lattice spacing in effect: the configured one, else
/// `max(max(w, h) / 32, 1)`.
pub open spec fn spacing_of(spacing: Option<u32>, w: u32, h: u32) -> u32 {
    match spacing {
        Some(s) => s,
        None => {
            let m = if w >= h { w } else { h };
            if m / 32 >= 1 { (m / 32) as u32 } else { 1 }
        },
    }
}

/// Upper bound on the number of lattice sources at spacing `sp`.
pub open spec fn source_bound(w: u32, h: u32, sp: u32) -> int {
    ceil_div(w as int, sp as int) * ceil_div(h as int, sp as int)
}

/// The lattice is too fine: its directed source pairs could overflow the
/// u32 density counts.
#[derive(Clone, Copy, Debug, PartialEq, Eq)]
pub struct SpacingTooFine {
    pub spacing: u32,
    /// The number of lattice points, which bounds the source count.
    pub bound: u64,
}

/// Resolve the lattice spacing and refuse one whose directed pair count
/// `bound · (bound − 1)` could exceed `u32::MAX`.
pub fn resolve_spacing(spacing: Option<u32>, w: u32, h: u32) -> (r: Result<u32, SpacingTooFine>)
    requires
        spacing != Some(0u32),
    ensures
        ({
            let sp = spacing_of(spacing, w, h);
            let b = source_bound(w, h, sp);
            &&& r is Ok <==> b * (if b >= 1 { b - 1 } else { 0 }) <= u32::MAX
            &&& r matches Ok(s) ==> s == sp
            &&& r matches Err(e) ==> e.spacing == sp && e.bound == b
        }),
{
    let sp: u32 = match spacing {
        Some(s) => s,
        None => {
            let m = if w >= h { w } else { h };
            if m / 32 >= 1 { m / 32 } else { 1 }
        },
    };
    let cw: u64 = (w as u64 + sp as u64 - 1) / sp as u64;
    let ch: u64 = (h as u64 + sp as u64 - 1) / sp as u64;
    assert(cw <= u32::MAX && ch <= u32::MAX) by (nonlinear_arith)
        requires
            sp >= 1,
            cw == (w + sp - 1) / (sp as int),
            ch == (h + sp - 1) / (sp as int),
            w <= u32::MAX,
            h <= u32::MAX,
    ;
    assert(cw * ch <= u64::MAX) by (nonlinear_arith)
        requires
            cw <= u32::MAX,
            ch <= u32::MAX,
    ;
    let bound: u64 = cw * ch;
    let less: u64 = if bound >= 1 { bound - 1 } else { 0 };
    match bound.checked_mul(less) {
        Some(p) => {
            if p > u32::MAX as u64 {
                Err(SpacingTooFine { spacing: sp, bound })
            } else {
                Ok(sp)
            }
        },
        None => Err(SpacingTooFine { spacing: sp, bound }),
    }
}

/// `i` is a river mouth: a river cell whose receiver is an ocean
/// (self-receiving) cell.
pub open spec fn is_mouth(rc: Seq<u32>, st: Seq<u32>, i: int) -> bool {
    st[i] > 0 && rc[i] as int != i && rc[rc[i] as int] == rc[i]
}

/// The river mouths among cells `0..k`, ascending.
pub open spec fn mouths_upto(rc: Seq<u32>, st: Seq<u32>, k: int) -> Seq<u32>
    decreases k,
{
    if k <= 0 {
        Seq::empty()
    } else if is_mouth(rc, st, k - 1) {
        mouths_upto(rc, st, k - 1).push((k - 1) as u32)
    } else {
        mouths_upto(rc, st, k - 1)
    }
}

/// River mouths, ascending: river cells whose receiver is an ocean
/// (self-receiver) cell, recomputable from receivers and Strahler orders
/// alone.
pub fn river_mouths(w: u32, h: u32, receivers: &[u32], strahler: &[u32]) -> (r: Vec<u32>)
    requires
        w * h <= u32::MAX,
        receivers@.len() >= w * h,
        strahler@.len() >= w * h,
        forall|i: int| 0 <= i < w * h ==> (#[trigger] receivers@[i] as int) < receivers@.len(),
    ensures
        r@ == mouths_upto(receivers@, strahler@, w * h),
{
    let n: usize = (w * h) as usize;
    let mut out: Vec<u32> = Vec::new();
    let mut i: usize = 0;
    while i < n
        invariant
            i <= n,
            n == w * h,
            n <= u32::MAX,
            receivers@.len() >= n,
            strahler@.len() >= n,
            forall|j: int| 0 <= j < n ==> (#[trigger] receivers@[j] as int) < receivers@.len(),
            out@ == mouths_upto(receivers@, strahler@, i as int),
        decreases n - i,
    {
        if strahler[i] > 0 && receivers[i] != i as u32 {
            let r = receivers[i] as usize;
            if receivers[r] == r as u32 {
                out.push(i as u32);
            }
        }
        i = i + 1;
    }
    out
}

/// The class of a trunk node: which gateway it is.
#[derive(Clone, Copy, Debug, PartialEq, Eq)]
pub enum SiteClass {
    Pass,
    HeadOfNavigation,
    RiverMouth,
}

impl SiteClass {
    /// The serialized (snake_case) name.
    pub fn name(&self) -> (r: &'static str)
        ensures
            r@ == match self {
                SiteClass::Pass => "pass"@,
                SiteClass::HeadOfNavigation => "head_of_navigation"@,
                SiteClass::RiverMouth => "river_mouth"@,
            },
    {
        match self {
            SiteClass::Pass => "pass",
            SiteClass::HeadOfNavigation => "head_of_navigation",
            SiteClass::RiverMouth => "river_mouth",
        }
    }
}

/// The movement mode of one step of a trunk path.
#[derive(Clone, Copy, Debug, PartialEq, Eq)]
pub enum StepMode {
    Land,
    Water,
}

impl StepMode {
    /// The serialized (snake_case) name.
    pub fn name(&self) -> (r: &'static str)
        ensures
            r@ == match self {
                StepMode::Land => "land"@,
                StepMode::Water => "water"@,
            },
    {
        match self {
            StepMode::Land => "land",
            StepMode::Water => "water",
        }
    }
}

/// A gateway site of the trunk network.
#[derive(Clone, Copy, Debug, PartialEq, Eq)]
pub struct TrunkNode {
    pub class: SiteClass,
    pub cell: u32,
    pub x: u32,
    pub y: u32,
    /// Whether the cell carries a land or a water graph node; sites with
    /// neither are unanchored and sit in component -1.
    pub anchored: bool,
    /// Reachable-component id (-1 = unanchored or isolated).
    pub component: i32,
}

/// A vertex of the union of trunk paths with degree at least 3, or a
/// trunk endpoint cell.
#[derive(Clone, Debug, PartialEq, Eq)]
pub struct Junction {
    pub cell: u32,
    pub x: u32,
    pub y: u32,
    pub degree: u32,
    /// Trunk edges through the cell, ascending.
    pub edges: Vec<u32>,
}

/// The u64 sort keys of cells.
pub open spec fn cell_keys(cells: Seq<u32>) -> Seq<u64> {
    cells.map_values(|c: u32| c as u64)
}

/// `block` lists `cells`, ascending, as nodes of class `class`, with
/// coordinates and anchoring read from the graph-node masks.
pub open spec fn node_block(
    block: Seq<TrunkNode>,
    class: SiteClass,
    cells: Seq<u32>,
    w: u32,
    land_node: Seq<bool>,
    water_node: Seq<bool>,
) -> bool {
    let keys = block.map_values(|t: TrunkNode| t.cell as u64);
    &&& sorted_u64(keys)
    &&& keys.to_multiset() == cell_keys(cells).to_multiset()
    &&& forall|j: int|
        0 <= j < block.len() ==> {
            let t = #[trigger] block[j];
            &&& t.class == class
            &&& t.x == t.cell % w
            &&& t.y == t.cell / w
            &&& t.anchored == (land_node[t.cell as int] || water_node[t.cell as int])
            &&& t.component == -1
        }
}

fn push_block(
    nodes: &mut Vec<TrunkNode>,
    class: SiteClass,
    cells: &[u32],
    w: u32,
    land_node: &[bool],
    water_node: &[bool],
)
    requires
        w >= 1,
        forall|j: int| 0 <= j < cells@.len() ==> (#[trigger] cells@[j] as int) < land_node@.len(),
        land_node@.len() == water_node@.len(),
        land_node@.len() <= u32::MAX,
    ensures
        final(nodes)@.len() == old(nodes)@.len() + cells@.len(),
        final(nodes)@.subrange(0, old(nodes)@.len() as int) == old(nodes)@,
        node_block(
            final(nodes)@.subrange(old(nodes)@.len() as int, final(nodes)@.len() as int),
            class,
            cells@,
            w,
            land_node@,
            water_node@,
        ),
{
    let ghost start = nodes@.len();
    let ghost before = nodes@;
    let mut keys: Vec<u64> = Vec::new();
    let mut i: usize = 0;
    while i < cells.len()
        invariant
            i <= cells@.len(),
            keys@ == cell_keys(cells@.take(i as int)),
        decreases cells@.len() - i,
    {
        keys.push(cells[i] as u64);
        proof {
            assert(cell_keys(cells@.take(i as int + 1)) =~= cell_keys(cells@.take(i as int)).push(
                cells@[i as int] as u64,
            ));
        }
        i = i + 1;
    }
    proof {
        assert(cells@.take(cells@.len() as int) =~= cells@);
    }
    let ghost unsorted = keys@;
    sort_u64(&mut keys);
    proof {
        assert forall|j: int| 0 <= j < keys@.len() implies (#[trigger] keys@[j] as int) < land_node@.len() by {
            vstd::seq_lib::to_multiset_contains(keys@, keys@[j]);
            assert(keys@.contains(keys@[j]));
            vstd::seq_lib::to_multiset_contains(unsorted, keys@[j]);
            let k = choose|k: int| 0 <= k < unsorted.len() && unsorted[k] == keys@[j];
            assert(unsorted[k] == cells@[k] as u64);
        }
    }
    let mut k: usize = 0;
    while k < keys.len()
        invariant
            w >= 1,
            k <= keys@.len(),
            nodes@.len() == start + k,
            nodes@.subrange(0, start as int) == before,
            forall|j: int| 0 <= j < keys@.len() ==> (#[trigger] keys@[j] as int) < land_node@.len(),
            land_node@.len() == water_node@.len(),
            land_node@.len() <= u32::MAX,
            forall|j: int|
                0 <= j < k ==> {
                    let t = #[trigger] nodes@[start + j];
                    &&& t.cell as u64 == keys@[j]
                    &&& t.class == class
                    &&& t.x == t.cell % w
                    &&& t.y == t.cell / w
                    &&& t.anchored == (land_node@[t.cell as int] || water_node@[t.cell as int])
                    &&& t.component == -1
                },
        decreases keys@.len() - k,
    {
        let cell = keys[k] as u32;
        let c = cell as usize;
        let t = TrunkNode {
            class,
            cell,
            x: cell % w,
            y: cell / w,
            anchored: land_node[c] || water_node[c],
            component: -1,
        };
        let ghost prev = nodes@;
        nodes.push(t);
        proof {
            assert(nodes@.subrange(0, start as int) =~= prev.subrange(0, start as int));
            assert forall|j: int| 0 <= j < k + 1 implies {
                let t = #[trigger] nodes@[start + j];
                &&& t.cell as u64 == keys@[j]
                &&& t.class == class
                &&& t.x == t.cell % w
                &&& t.y == t.cell / w
                &&& t.anchored == (land_node@[t.cell as int] || water_node@[t.cell as int])
                &&& t.component == -1
            } by {
                if j < k {
                    assert(nodes@[start + j] == prev[start + j]);
                }
            }
        }
        k = k + 1;
    }
    proof {
        let block = nodes@.subrange(start as int, nodes@.len() as int);
        let bk = block.map_values(|t: TrunkNode| t.cell as u64);
        assert forall|j: int| 0 <= j < block.len() implies #[trigger] bk[j] == keys@[j] by {
            assert(block[j] == nodes@[start + j]);
        }
        assert(bk =~= keys@);
        assert forall|j: int| 0 <= j < block.len() implies {
            let t = #[trigger] block[j];
            &&& t.class == class
            &&& t.x == t.cell % w
            &&& t.y == t.cell / w
            &&& t.anchored == (land_node@[t.cell as int] || water_node@[t.cell as int])
            &&& t.component == -1
        } by {
            assert(block[j] == nodes@[start + j]);
        }
        lemma_block_len(block, class, cells@, w, land_node@, water_node@);
    }
}

/// The declared node set in fixed order: passes, then heads of
/// navigation, then river mouths, each ascending by cell; every node
/// starts in component -1.
pub fn node_set(
    w: u32,
    land_node: &[bool],
    water_node: &[bool],
    pass_cells: &[u32],
    head_cells: &[u32],
    mouth_cells: &[u32],
) -> (nodes: Vec<TrunkNode>)
    requires
        w >= 1,
        land_node@.len() == water_node@.len(),
        land_node@.len() <= u32::MAX,
        forall|j: int| 0 <= j < pass_cells@.len() ==> (#[trigger] pass_cells@[j] as int) < land_node@.len(),
        forall|j: int| 0 <= j < head_cells@.len() ==> (#[trigger] head_cells@[j] as int) < land_node@.len(),
        forall|j: int|
            0 <= j < mouth_cells@.len() ==> (#[trigger] mouth_cells@[j] as int) < land_node@.len(),
    ensures
        nodes@.len() == pass_cells@.len() + head_cells@.len() + mouth_cells@.len(),
        node_block(
            nodes@.subrange(0, pass_cells@.len() as int),
            SiteClass::Pass,
            pass_cells@,
            w,
            land_node@,
            water_node@,
        ),
        node_block(
            nodes@.subrange(pass_cells@.len() as int, (pass_cells@.len() + head_cells@.len()) as int),
            SiteClass::HeadOfNavigation,
            head_cells@,
            w,
            land_node@,
            water_node@,
        ),
        node_block(
            nodes@.subrange((pass_cells@.len() + head_cells@.len()) as int, nodes@.len() as int),
            SiteClass::RiverMouth,
            mouth_cells@,
            w,
            land_node@,
            water_node@,
        ),
{
    let mut nodes: Vec<TrunkNode> = Vec::new();
    push_block(&mut nodes, SiteClass::Pass, pass_cells, w, land_node, water_node);
    let ghost a = nodes@;
    push_block(&mut nodes, SiteClass::HeadOfNavigation, head_cells, w, land_node, water_node);
    let ghost b = nodes@;
    push_block(&mut nodes, SiteClass::RiverMouth, mouth_cells, w, land_node, water_node);
    proof {
        assert(a.subrange(0, a.len() as int) =~= a);
        let bb = b.subrange(a.len() as int, b.len() as int);
        assert(nodes@.subrange(0, b.len() as int) == b);
        assert(nodes@.subrange(0, a.len() as int) =~= b.subrange(0, a.len() as int));
        assert(nodes@.subrange(a.len() as int, b.len() as int) =~= bb);
    }
    nodes
}

proof fn lemma_block_len(
    block: Seq<TrunkNode>,
    class: SiteClass,
    cells: Seq<u32>,
    w: u32,
    land_node: Seq<bool>,
    water_node: Seq<bool>,
)
    requires
        node_block(block, class, cells, w, land_node, water_node),
    ensures
        block.len() == cells.len(),
{
    let keys = block.map_values(|t: TrunkNode| t.cell as u64);
    keys.to_multiset_ensures();
    cell_keys(cells).to_multiset_ensures();
}

/// Nodes `u` and `v` of an `s`-node set are linked: the upper-triangle
/// entry of the `s × s` link matrix for the pair holds.
pub open spec fn pair_linked(s: int, linked: Seq<bool>, u: int, v: int) -> bool {
    &&& 0 <= u < s
    &&& 0 <= v < s
    &&& u != v
    &&& if u < v { linked[u * s + v] } else { linked[v * s + u] }
}

/// The graph of linked node pairs.
pub open spec fn link_graph(s: int, linked: Seq<bool>) -> spec_fn(int, int) -> bool {
    |u: int, v: int| pair_linked(s, linked, u, v)
}

/// Node `u` is linked to some other node.
pub open spec fn has_link(s: int, linked: Seq<bool>, u: int) -> bool {
    exists|v: int| #[trigger] pair_linked(s, linked, u, v)
}

/// The nodes that get a component id: anchored nodes linked to some other
/// node. Unanchored and isolated nodes stay in component -1.
pub open spec fn component_member(s: int, linked: Seq<bool>, anchored: Seq<bool>) -> Seq<bool> {
    Seq::new(anchored.len(), |u: int| anchored[u] && has_link(s, linked, u))
}

/// `i` is anchored and no earlier anchored node is reachable from it.
pub open spec fn first_anchored(s: int, linked: Seq<bool>, anchored: Seq<bool>, i: int) -> bool {
    &&& anchored[i]
    &&& forall|x: int| 0 <= x < i && #[trigger] anchored[x] ==> !connected(link_graph(s, linked), x, i)
}

/// Number of first anchored nodes among `0..k`.
pub open spec fn count_first_anchored(s: int, linked: Seq<bool>, anchored: Seq<bool>, k: int) -> nat
    decreases k,
{
    if k <= 0 {
        0
    } else if first_anchored(s, linked, anchored, k - 1) {
        count_first_anchored(s, linked, anchored, k - 1) + 1
    } else {
        count_first_anchored(s, linked, anchored, k - 1)
    }
}

proof fn lemma_count_first_anchored(
    s: int,
    linked: Seq<bool>,
    anchored: Seq<bool>,
    edges: Seq<(u32, u32)>,
    k: int,
)
    requires
        0 <= k <= anchored.len(),
        forall|x: int| 0 <= x < anchored.len() ==> (#[trigger] first_member(edges, anchored, x) <==> first_anchored(s, linked, anchored, x)),
    ensures
        count_first(edges, anchored, k) == count_first_anchored(s, linked, anchored, k),
    decreases k,
{
    if k > 0 {
        lemma_count_first_anchored(s, linked, anchored, edges, k - 1);
        assert(first_member(edges, anchored, k - 1) <==> first_anchored(s, linked, anchored, k - 1));
    }
}

/// [`anchor`] on slices of exactly `w × h` entries.
fn anchor_in_grid(w: u32, h: u32, land_node: &[bool], water_node: &[bool], cell: u32) -> (node: Option<u32>)
    requires
        w * h * 2 <= u32::MAX,
        land_node@.len() == w * h,
        water_node@.len() == w * h,
        cell < w * h,
    ensures
        node == if land_node@[cell as int] {
            Some(cell)
        } else if water_node@[cell as int] {
            Some((w * h + cell) as u32)
        } else {
            None
        },
{
    let c = cell as usize;
    if land_node[c] {
        Some(cell)
    } else if water_node[c] {
        Some(w * h + cell)
    } else {
        None
    }
}

/// The graph node a site at `cell` is routed from: its land node (node id
/// `cell`) if the cell carries one, else its water node (node id
/// `w * h + cell`), else none.
pub fn anchor(w: u32, h: u32, land_node: &[bool], water_node: &[bool], cell: u32) -> (node: Option<u32>)
    requires
        w * h * 2 <= u32::MAX,
        land_node@.len() >= w * h,
        water_node@.len() >= w * h,
        cell < w * h,
    ensures
        node == if on_grid(w, h, land_node@)[cell as int] {
            Some(cell)
        } else if on_grid(w, h, water_node@)[cell as int] {
            Some((w * h + cell) as u32)
        } else {
            None
        },
{
    let land_node = grid_part(w, h, land_node);
    let water_node = grid_part(w, h, water_node);
    anchor_in_grid(w, h, land_node, water_node, cell)
}

/// Whether node `u` of an `s`-node set is linked to another node.
fn linked_to_any(s: usize, linked: &[bool], u: usize) -> (r: bool)
    requires
        u < s,
        s * s <= usize::MAX,
        linked@.len() == s * s,
    ensures
        r == has_link(s as int, linked@, u as int),
{
    let mut v: usize = 0;
    while v < s
        invariant
            u < s,
            v <= s,
            s * s <= usize::MAX,
            linked@.len() == s * s,
            forall|x: int| 0 <= x < v ==> !#[trigger] pair_linked(s as int, linked@, u as int, x),
        decreases s - v,
    {
        if v != u {
            proof {
                assert(u * s + v < s * s && v * s + u < s * s) by (nonlinear_arith)
                    requires
                        u < s,
                        v < s,
                ;
            }
            let k = if u < v { u * s + v } else { v * s + u };
            if linked[k] {
                assert(pair_linked(s as int, linked@, u as int, v as int));
                return true;
            }
        }
        v = v + 1;
    }
    false
}

/// Edge `e` joins two distinct nodes `e.0 < e.1` below `si` that are
/// linked in `lk`.
pub open spec fn listed_edge_ok(lk: Seq<bool>, si: int, e: (u32, u32)) -> bool {
    &&& (e.0 as int) < e.1 as int
    &&& (e.1 as int) < si
    &&& lk[e.0 * si + e.1]
}

/// Reachable components of the node set: nodes joined through linked
/// pairs (finite symmetrized cost distance) share a component. Anchored
/// nodes linked to some other node get ids `0, 1, …` in order of each
/// component's first such node; unanchored or isolated nodes stay in
/// component -1.
pub fn reachable_components(s: usize, linked: &[bool], anchored: &[bool]) -> (comp: Vec<i32>)
    requires
        s <= i32::MAX,
        s * s <= usize::MAX,
        linked@.len() == s * s,
        anchored@.len() == s,
    ensures
        comp@.len() == s,
        forall|u: int| 0 <= u < s && !anchored@[u] ==> #[trigger] comp@[u] == -1,
        forall|u: int|
            0 <= u < s && anchored@[u] && (forall|v: int| v != u ==> !pair_linked(s as int, linked@, u, v))
                ==> #[trigger] comp@[u] == -1,
        forall|u: int, v: int|
            #![trigger comp@[u], comp@[v]]
            0 <= u < s && 0 <= v < s && component_member(s as int, linked@, anchored@)[u] && component_member(
                s as int,
                linked@,
                anchored@,
            )[v] ==> (comp@[u] == comp@[v] <==> connected(link_graph(s as int, linked@), u, v)),
        forall|i: int|
            0 <= i < s && first_anchored(s as int, linked@, component_member(s as int, linked@, anchored@), i)
                ==> #[trigger] comp@[i] == count_first_anchored(
                s as int,
                linked@,
                component_member(s as int, linked@, anchored@),
                i,
            ),
{
    let mut member: Vec<bool> = Vec::new();
    let mut u: usize = 0;
    while u < s
        invariant
            u <= s,
            s * s <= usize::MAX,
            linked@.len() == s * s,
            anchored@.len() == s,
            member@.len() == u,
            forall|x: int| 0 <= x < u ==> #[trigger] member@[x] == (anchored@[x] && has_link(s as int, linked@, x)),
        decreases s - u,
    {
        let m = anchored[u] && linked_to_any(s, linked, u);
        member.push(m);
        u = u + 1;
    }
    let ghost anc0 = anchored@;
    let ghost mem = component_member(s as int, linked@, anchored@);
    assert(member@ =~= mem);
    let anchored = member.as_slice();
    let ghost lk = linked@;
    let ghost si = s as int;
    let mut edges: Vec<(u32, u32)> = Vec::new();
    let mut i: usize = 0;
    while i < s
        invariant
            i <= s,
            s <= i32::MAX,
            s * s <= usize::MAX,
            lk == linked@,
            si == s as int,
            linked@.len() == s * s,
            forall|e: int| 0 <= e < edges@.len() ==> #[trigger] listed_edge_ok(lk, si, edges@[e]),
            forall|a: int, b: int| 0 <= a < i && a < b < s && #[trigger] lk[a * si + b] ==> edge_upto(edges@, edges@.len() as int, a, b),
        decreases s - i,
    {
        let mut j: usize = i + 1;
        while j < s
            invariant
                i < s,
                i + 1 <= j <= s,
                s <= i32::MAX,
                s * s <= usize::MAX,
                lk == linked@,
                si == s as int,
                linked@.len() == s * s,
                forall|e: int| 0 <= e < edges@.len() ==> #[trigger] listed_edge_ok(lk, si, edges@[e]),
                forall|a: int, b: int| 0 <= a < i && a < b < s && #[trigger] lk[a * si + b] ==> edge_upto(edges@, edges@.len() as int, a, b),
                forall|b: int| i < b < j && #[trigger] lk[i * si + b] ==> edge_upto(edges@, edges@.len() as int, i as int, b),
            decreases s - j,
        {
            assert(i * s + j < s * s) by (nonlinear_arith)
                requires
                    i < s,
                    j < s,
            ;
            let ghost e0 = edges@;
            let ghost k = i * s + j;
            let lij = linked[i * s + j];
            if lij {
                edges.push((i as u32, j as u32));
                proof {
                    assert(edges@[e0.len() as int].0 as int * si + edges@[e0.len() as int].1 as int == k);
                    assert forall|e: int| 0 <= e < edges@.len() implies #[trigger] listed_edge_ok(lk, si, edges@[e]) by {
                        if e < e0.len() {
                            assert(edges@[e] == e0[e]);
                        }
                    }
                    assert forall|a: int, b: int| 0 <= a < i && a < b < s && #[trigger] lk[a * si + b] implies edge_upto(edges@, edges@.len() as int, a, b) by {
                        assert(edge_upto(e0, e0.len() as int, a, b));
                        let e = choose|e: int| 0 <= e < e0.len() && ((#[trigger] e0[e].0 as int == a && e0[e].1 as int == b) || (e0[e].0 as int == b && e0[e].1 as int == a));
                        assert(edges@[e] == e0[e]);
                    }
                    assert forall|b: int| i < b < j + 1 && #[trigger] lk[i * si + b] implies edge_upto(edges@, edges@.len() as int, i as int, b) by {
                        if b < j {
                            assert(edge_upto(e0, e0.len() as int, i as int, b));
                            let e = choose|e: int| 0 <= e < e0.len() && ((#[trigger] e0[e].0 as int == i as int && e0[e].1 as int == b) || (e0[e].0 as int == b && e0[e].1 as int == i as int));
                            assert(edges@[e] == e0[e]);
                        } else {
                            assert(edges@[e0.len() as int].0 as int == i as int && edges@[e0.len() as int].1 as int == b);
                        }
                    }
                }
            }
            j = j + 1;
        }
        i = i + 1;
    }
    proof {
        assert forall|e: int| 0 <= e < edges@.len() implies (#[trigger] edges@[e].0 as int) < s && (edges@[e].1 as int) < s by {
            assert(listed_edge_ok(lk, si, edges@[e]));
        }
    }
    let comp = label_components(s, edges.as_slice(), anchored);
    proof {
        let ge = edge_graph(edges@, edges@.len() as int);
        let gl = link_graph(si, lk);
        assert forall|x: int, y: int| #[trigger] ge(x, y) implies gl(x, y) by {
            let e = choose|e: int| 0 <= e < edges@.len() && ((#[trigger] edges@[e].0 as int == x && edges@[e].1 as int == y) || (edges@[e].0 as int == y && edges@[e].1 as int == x));
            assert(listed_edge_ok(lk, si, edges@[e]));
        }
        assert forall|x: int, y: int| #[trigger] gl(x, y) implies ge(x, y) by {
            if x < y {
                assert(lk[x * si + y]);
            } else {
                assert(lk[y * si + x]);
                assert(edge_upto(edges@, edges@.len() as int, y, x));
                let e = choose|e: int| 0 <= e < edges@.len() && ((#[trigger] edges@[e].0 as int == y && edges@[e].1 as int == x) || (edges@[e].0 as int == x && edges@[e].1 as int == y));
            }
        }
        assert forall|x: int, y: int| connected(ge, x, y) <==> #[trigger] connected(gl, x, y) by {
            if connected(ge, x, y) {
                lemma_connected_mono(ge, gl, x, y);
            }
            if connected(gl, x, y) {
                lemma_connected_mono(gl, ge, x, y);
            }
        }
        assert forall|x: int| 0 <= x < s implies (#[trigger] first_member(edges@, anchored@, x) <==> first_anchored(si, lk, anchored@, x)) by {
            assert forall|z: int| 0 <= z < x implies (connected(ge, z, x) <==> #[trigger] connected(gl, z, x)) by {}
            if first_anchored(si, lk, anchored@, x) {
                assert forall|z: int| 0 <= z < x && #[trigger] anchored@[z] implies !connected(ge, z, x) by {
                    assert(!connected(gl, z, x));
                }
            }
            if first_member(edges@, anchored@, x) {
                assert forall|z: int| 0 <= z < x && #[trigger] anchored@[z] implies !connected(gl, z, x) by {
                    assert(!connected(ge, z, x));
                }
            }
        }
        assert forall|t: int| 0 <= t < s && first_anchored(si, lk, anchored@, t) implies #[trigger] comp@[t] == count_first_anchored(si, lk, anchored@, t) by {
            lemma_count_first_anchored(si, lk, anchored@, edges@, t);
        }
        assert forall|x: int, y: int|
            #![trigger comp@[x], comp@[y]]
            0 <= x < s && 0 <= y < s && anchored@[x] && anchored@[y] implies (comp@[x] == comp@[y] <==> connected(gl, x, y)) by {
            assert(connected(ge, x, y) <==> connected(gl, x, y));
        }
        assert forall|x: int| 0 <= x < s && anc0[x] && (forall|v: int| v != x ==> !pair_linked(si, lk, x, v))
            implies #[trigger] comp@[x] == -1 by {
            if has_link(si, lk, x) {
                let v = choose|v: int| #[trigger] pair_linked(si, lk, x, v);
                assert(!pair_linked(si, lk, x, v));
            }
            assert(!anchored@[x]);
        }
        assert forall|x: int| 0 <= x < s && !anc0[x] implies #[trigger] comp@[x] == -1 by {
            assert(!anchored@[x]);
        }
    }
    comp
}

/// `c` is a point of the lattice with spacing `sp` and offset `sp / 2`
/// in both directions.
pub open spec fn on_lattice(w: u32, sp: u32, c: int) -> bool {
    let off = sp / 2;
    let x = c % (w as int);
    let y = c / (w as int);
    x >= off && (x - off) % (sp as int) == 0 && y >= off && (y - off) % (sp as int) == 0
}

/// `c` is a lattice source: a lattice point on dry ground (a land node,
/// no channel, no standing water).
pub open spec fn is_source(w: u32, sp: u32, land_node: Seq<bool>, strahler: Seq<u32>, dry: Seq<bool>, c: int) -> bool {
    on_lattice(w, sp, c) && land_node[c] && strahler[c] == 0 && dry[c]
}

/// The lattice sources among cells `0..k`, ascending.
pub open spec fn sources_upto(
    w: u32,
    sp: u32,
    land_node: Seq<bool>,
    strahler: Seq<u32>,
    dry: Seq<bool>,
    k: int,
) -> Seq<u32>
    decreases k,
{
    if k <= 0 {
        Seq::empty()
    } else if is_source(w, sp, land_node, strahler, dry, k - 1) {
        sources_upto(w, sp, land_node, strahler, dry, k - 1).push((k - 1) as u32)
    } else {
        sources_upto(w, sp, land_node, strahler, dry, k - 1)
    }
}

/// The lattice: cells whose column and row are each half a spacing
/// (rounded down) plus a whole number of spacings.
pub proof fn lemma_lattice_points(w: u32, sp: u32, c: int)
    requires
        w >= 1,
        sp >= 1,
        c >= 0,
    ensures
        on_lattice(w, sp, c) <==> exists|i: nat, j: nat|
            c % (w as int) == sp / 2 + #[trigger] (i * sp) && c / (w as int) == sp / 2 + #[trigger] (j * sp),
{
    let off = (sp / 2) as int;
    let x = c % (w as int);
    let y = c / (w as int);
    let s = sp as int;
    vstd::arithmetic::div_mod::lemma_mod_pos_bound(c, w as int);
    vstd::arithmetic::div_mod::lemma_div_pos_is_pos(c, w as int);
    if on_lattice(w, sp, c) {
        let i = ((x - off) / s) as nat;
        let j = ((y - off) / s) as nat;
        vstd::arithmetic::div_mod::lemma_fundamental_div_mod(x - off, s);
        vstd::arithmetic::div_mod::lemma_fundamental_div_mod(y - off, s);
        vstd::arithmetic::div_mod::lemma_div_pos_is_pos(x - off, s);
        vstd::arithmetic::div_mod::lemma_div_pos_is_pos(y - off, s);
        assert(x == off + i * sp) by (nonlinear_arith)
            requires
                x - off == s * ((x - off) / s) + (x - off) % s,
                (x - off) % s == 0,
                i == (x - off) / s,
                s == sp,
        ;
        assert(y == off + j * sp) by (nonlinear_arith)
            requires
                y - off == s * ((y - off) / s) + (y - off) % s,
                (y - off) % s == 0,
                j == (y - off) / s,
                s == sp,
        ;
    }
    if exists|i: nat, j: nat| x == sp / 2 + #[trigger] (i * sp) && y == sp / 2 + #[trigger] (j * sp) {
        let (i, j) = choose|i: nat, j: nat| x == sp / 2 + #[trigger] (i * sp) && y == sp / 2 + #[trigger] (j * sp);
        vstd::arithmetic::div_mod::lemma_mod_multiples_basic(i as int, s);
        vstd::arithmetic::div_mod::lemma_mod_multiples_basic(j as int, s);
        assert(i * sp >= 0 && j * sp >= 0) by (nonlinear_arith);
        assert(x - off == i * s && y - off == j * s);
    }
}

/// Every lattice source lies on the lattice, on a land node, on dry
/// ground and off every river channel (Strahler order 0); and every
/// such lattice cell is a source. Sources come in ascending order.
pub proof fn lemma_sources_on_dry_ground(
    w: u32,
    sp: u32,
    land_node: Seq<bool>,
    strahler: Seq<u32>,
    dry: Seq<bool>,
    k: int,
)
    requires
        0 <= k <= u32::MAX + 1,
    ensures
        forall|j: int|
            0 <= j < sources_upto(w, sp, land_node, strahler, dry, k).len() ==> {
                let c = #[trigger] sources_upto(w, sp, land_node, strahler, dry, k)[j] as int;
                &&& 0 <= c < k
                &&& strahler[c] == 0
                &&& land_node[c]
                &&& dry[c]
                &&& on_lattice(w, sp, c)
            },
        forall|c: int|
            0 <= c < k && on_lattice(w, sp, c) && land_node[c] && strahler[c] == 0 && dry[c]
                ==> #[trigger] sources_upto(w, sp, land_node, strahler, dry, k).contains(c as u32),
        forall|i: int, j: int|
            0 <= i < j < sources_upto(w, sp, land_node, strahler, dry, k).len() ==> sources_upto(
                w,
                sp,
                land_node,
                strahler,
                dry,
                k,
            )[i] < sources_upto(w, sp, land_node, strahler, dry, k)[j],
    decreases k,
{
    if k > 0 {
        lemma_sources_on_dry_ground(w, sp, land_node, strahler, dry, k - 1);
        let prev = sources_upto(w, sp, land_node, strahler, dry, k - 1);
        let cur = sources_upto(w, sp, land_node, strahler, dry, k);
        if is_source(w, sp, land_node, strahler, dry, k - 1) {
            assert(cur == prev.push((k - 1) as u32));
            assert(cur[prev.len() as int] == (k - 1) as u32);
            assert forall|j: int| 0 <= j < cur.len() implies {
                let c = #[trigger] cur[j] as int;
                &&& 0 <= c < k
                &&& strahler[c] == 0
                &&& land_node[c]
                &&& dry[c]
                &&& on_lattice(w, sp, c)
            } by {
                if j < prev.len() {
                    assert(cur[j] == prev[j]);
                }
            }
            assert forall|c: int|
                0 <= c < k && on_lattice(w, sp, c) && land_node[c] && strahler[c] == 0 && dry[c]
                    implies #[trigger] cur.contains(c as u32) by {
                if c < k - 1 {
                    assert(prev.contains(c as u32));
                    let x = choose|x: int| 0 <= x < prev.len() && prev[x] == c as u32;
                    assert(cur[x] == c as u32);
                } else {
                    assert(cur[prev.len() as int] == c as u32);
                }
            }
            assert forall|i: int, j: int| 0 <= i < j < cur.len() implies cur[i] < cur[j] by {
                assert(cur[i] == prev[i]);
                if j < prev.len() {
                    assert(cur[j] == prev[j]);
                }
            }
        } else {
            assert(cur == prev);
        }
    }
}

proof fn lemma_sources_skip(
    w: u32,
    sp: u32,
    land_node: Seq<bool>,
    strahler: Seq<u32>,
    dry: Seq<bool>,
    a: int,
    b: int,
)
    requires
        0 <= a <= b,
        forall|c: int| a <= c < b ==> !#[trigger] on_lattice(w, sp, c),
    ensures
        sources_upto(w, sp, land_node, strahler, dry, b) == sources_upto(w, sp, land_node, strahler, dry, a),
    decreases b - a,
{
    if b > a {
        assert(!on_lattice(w, sp, b - 1));
        lemma_sources_skip(w, sp, land_node, strahler, dry, a, b - 1);
    }
}

/// Cells of row `y` strictly right of lattice column `x` and left of the
/// next lattice column are off the lattice.
proof fn lemma_between_columns(w: u32, sp: u32, y: int, x: int, c: int)
    requires
        w >= 1,
        sp >= 1,
        0 <= y,
        sp / 2 <= x < w,
        (x - sp / 2) % (sp as int) == 0,
        y * w + x < c < y * w + x + sp,
        c < (y + 1) * w,
    ensures
        !on_lattice(w, sp, c),
{
    let d = c - (y * w + x);
    assert((y + 1) * w == y * w + w) by (nonlinear_arith);
    vstd::arithmetic::div_mod::lemma_fundamental_div_mod_converse(c, w as int, y, x + d);
    let q = (x - sp / 2) / (sp as int);
    vstd::arithmetic::div_mod::lemma_fundamental_div_mod(x - sp / 2, sp as int);
    vstd::arithmetic::div_mod::lemma_fundamental_div_mod_converse(x + d - sp / 2, sp as int, q, d);
}

/// Cells of rows strictly between lattice rows, and of the next lattice
/// row left of the first column, are off the lattice.
proof fn lemma_between_rows(w: u32, h: u32, sp: u32, y: int, c: int)
    requires
        w >= 1,
        sp >= 1,
        sp / 2 < w,
        sp / 2 <= y,
        (y - sp / 2) % (sp as int) == 0,
        (y + 1) * w <= c < (y + sp) * w + sp / 2,
    ensures
        !on_lattice(w, sp, c),
{
    let cy = c / (w as int);
    let cx = c % (w as int);
    vstd::arithmetic::div_mod::lemma_fundamental_div_mod(c, w as int);
    assert(c == (w as int) * cy + cx);
    assert(cy * w == (w as int) * cy) by (nonlinear_arith);
    assert(c == cy * w + cx);
    assert(0 <= cx < w) by {
        vstd::arithmetic::div_mod::lemma_mod_pos_bound(c, w as int);
    }
    assert(cy >= y + 1) by {
        if cy <= y {
            assert(cy * w + cx < (y + 1) * w) by (nonlinear_arith)
                requires
                    cy <= y,
                    w >= 1,
                    0 <= cx < w,
            ;
        }
    }
    assert(cy <= y + sp) by {
        if cy > y + sp {
            assert(cy * w + cx >= (y + sp) * w + w) by (nonlinear_arith)
                requires
                    cy >= y + sp + 1,
                    w >= 1,
                    0 <= cx,
            ;
        }
    }
    if cy < y + sp {
        let q = (y - sp / 2) / (sp as int);
        vstd::arithmetic::div_mod::lemma_fundamental_div_mod(y - sp / 2, sp as int);
        assert(q * (sp as int) == (sp as int) * q) by (nonlinear_arith);
        assert(cy - sp / 2 == q * (sp as int) + (cy - y));
        vstd::arithmetic::div_mod::lemma_fundamental_div_mod_converse(cy - sp / 2, sp as int, q, cy - y);
    } else {
        assert(cx < sp / 2) by {
            assert(cy * w == (y + sp) * w);
        }
    }
}

/// [`lattice_sources`] on slices of exactly `w × h` entries.
fn lattice_sources_in_grid(
    w: u32,
    h: u32,
    land_node: &[bool],
    strahler: &[u32],
    dry: &[bool],
    spacing: u32,
) -> (sources: Vec<u32>)
    requires
        w * h <= u32::MAX,
        spacing >= 1,
        land_node@.len() == w * h,
        strahler@.len() == w * h,
        dry@.len() == w * h,
    ensures
        sources@ == sources_upto(w, spacing, land_node@, strahler@, dry@, w * h),
{
    if w == 0 || h == 0 {
        proof {
            assert(w * h == 0) by (nonlinear_arith)
                requires
                    w == 0 || h == 0,
            ;
        }
        return Vec::new();
    }
    let ghost ln = land_node@;
    let ghost st = strahler@;
    let ghost dr = dry@;
    let ghost n = (w * h) as int;
    let off: u64 = (spacing / 2) as u64;
    let sp: u64 = spacing as u64;
    let wl: u64 = w as u64;
    let hl: u64 = h as u64;
    let mut out: Vec<u32> = Vec::new();
    if off >= wl {
        proof {
            assert forall|c: int| 0 <= c < n implies !#[trigger] on_lattice(w, spacing, c) by {
                vstd::arithmetic::div_mod::lemma_fundamental_div_mod(c, w as int);
            }
            lemma_sources_skip(w, spacing, ln, st, dr, 0, n);
        }
        return out;
    }
    let mut y: u64 = off;
    proof {
        let p0 = if y * wl + off < n { y * wl + off } else { n };
        assert forall|c: int| 0 <= c < p0 implies !#[trigger] on_lattice(w, spacing, c) by {
            vstd::arithmetic::div_mod::lemma_fundamental_div_mod(c, w as int);
            if c / (w as int) >= off {
                assert((c / (w as int)) * w >= off * w) by (nonlinear_arith)
                    requires
                        c / (w as int) >= off,
                        w >= 1,
                ;
            }
        }
        lemma_sources_skip(w, spacing, ln, st, dr, 0, p0);
        assert(y - off == 0);
        vstd::arithmetic::div_mod::lemma_small_mod(0nat, sp as nat);
        assert((y - off) % (sp as int) == 0);
    }
    while y < hl
        invariant
            grid_ok(w, h),
            n == w * h,
            ln == land_node@,
            st == strahler@,
            dr == dry@,
            ln.len() == n,
            st.len() == n,
            dr.len() == n,
            sp == spacing,
            spacing >= 1,
            off == spacing / 2,
            off < wl,
            wl == w,
            hl == h,
            off <= y <= hl + sp,
            (y - off) % (sp as int) == 0,
            out@ == sources_upto(w, spacing, ln, st, dr, if y * wl + off < n { y * wl + off } else { n }),
        decreases hl + sp - y,
    {
        assert(y * wl + wl <= n) by (nonlinear_arith)
            requires
                y < hl,
                n == wl * hl,
        ;
        let row: u64 = y * wl;
        let mut x: u64 = off;
        proof {
            vstd::arithmetic::div_mod::lemma_small_mod(0nat, spacing as nat);
            assert((x - off) as int == 0);
        }
        while x < wl
            invariant
                grid_ok(w, h),
                n == w * h,
                ln == land_node@,
                st == strahler@,
                dr == dry@,
                ln.len() == n,
                st.len() == n,
                dr.len() == n,
                sp == spacing,
                spacing >= 1,
                off == spacing / 2,
                off < wl,
                wl == w,
                hl == h,
                off <= y < hl,
                (y - off) % (sp as int) == 0,
                row == y * wl,
                row + wl <= n,
                off <= x <= wl + sp,
                (x - off) % (sp as int) == 0,
                out@ == sources_upto(w, spacing, ln, st, dr, row + if x < wl { x } else { wl }),
            decreases wl + sp - x,
        {
            let i = (row + x) as usize;
            proof {
                vstd::arithmetic::div_mod::lemma_fundamental_div_mod_converse(i as int, w as int, y as int, x as int);
                assert(on_lattice(w, spacing, i as int));
            }
            if land_node[i] && strahler[i] == 0 && dry[i] {
                out.push(i as u32);
            }
            proof {
                let nx = x + sp;
                let next = row + if nx < wl { nx } else { wl as int };
                assert(row + wl == (y + 1) * w) by (nonlinear_arith)
                    requires
                        row == y * wl,
                        wl == w,
                ;
                assert forall|c: int| i + 1 <= c < next implies !#[trigger] on_lattice(w, spacing, c) by {
                    lemma_between_columns(w, spacing, y as int, x as int, c);
                }
                lemma_sources_skip(w, spacing, ln, st, dr, i + 1, next);
                vstd::arithmetic::div_mod::lemma_mod_add_multiples_vanish((x - off) as int, sp as int);
            }
            x = x + sp;
        }
        proof {
            let ny = y + sp;
            let next = if ny * wl + off < n { ny * wl + off } else { n };
            assert(row + wl == (y + 1) * wl) by (nonlinear_arith)
                requires
                    row == y * wl,
            ;
            assert(ny * wl + off >= row + wl) by (nonlinear_arith)
                requires
                    row == y * wl,
                    ny == y + sp,
                    sp >= 1,
            ;
            assert forall|c: int| row + wl <= c < next implies !#[trigger] on_lattice(w, spacing, c) by {
                assert(c < (y + sp) * w + off);
                lemma_between_rows(w, h, spacing, y as int, c);
            }
            lemma_sources_skip(w, spacing, ln, st, dr, row + wl, next);
            vstd::arithmetic::div_mod::lemma_mod_add_multiples_vanish((y - off) as int, sp as int);
            if ny >= hl {
                assert(ny * wl >= n) by (nonlinear_arith)
                    requires
                        ny >= hl,
                        n == wl * hl,
                ;
            }
        }
        y = y + sp;
    }
    proof {
        assert(y * wl >= n) by (nonlinear_arith)
            requires
                y >= hl,
                n == wl * hl,
        ;
    }
    out
}

/// The lattice sources, in row-major order: dry-ground cells (land node,
/// no channel, no standing water) at spacing `sp`, offset `sp / 2` in
/// both directions.
pub fn lattice_sources(
    w: u32,
    h: u32,
    land_node: &[bool],
    strahler: &[u32],
    dry: &[bool],
    spacing: u32,
) -> (sources: Vec<u32>)
    requires
        w * h <= u32::MAX,
        spacing >= 1,
        land_node@.len() >= w * h,
        strahler@.len() >= w * h,
        dry@.len() >= w * h,
    ensures
        sources@ == sources_upto(w, spacing, on_grid(w, h, land_node@), on_grid(w, h, strahler@), on_grid(w, h, dry@), w * h),
        forall|j: int|
            0 <= j < sources@.len() ==> (#[trigger] sources@[j] as int) < w * h && strahler@[sources@[j] as int] == 0
                && land_node@[sources@[j] as int] && dry@[sources@[j] as int],
{
    let ghost ln = land_node@;
    let ghost st = strahler@;
    let ghost dr = dry@;
    let land_node = grid_part(w, h, land_node);
    let strahler = grid_part(w, h, strahler);
    let dry = grid_part(w, h, dry);
    let sources = lattice_sources_in_grid(w, h, land_node, strahler, dry, spacing);
    proof {
        lemma_sources_on_dry_ground(w, spacing, land_node@, strahler@, dry@, w * h);
        assert forall|j: int| 0 <= j < sources@.len() implies (#[trigger] sources@[j] as int) < w * h && st[sources@[j] as int]
            == 0 && ln[sources@[j] as int] && dr[sources@[j] as int] by {
            let c = sources@[j] as int;
            assert(strahler@[c] == st[c] && land_node@[c] == ln[c] && dry@[c] == dr[c]);
        }
    }
    sources
}

/// How many of the first `k` paths pass through cell `c`.
pub open spec fn paths_through(paths: Seq<Vec<u32>>, c: int, k: int) -> nat
    decreases k,
{
    if k <= 0 {
        0
    } else {
        paths_through(paths, c, k - 1) + if paths[k - 1]@.contains(c as u32) {
            1nat
        } else {
            0nat
        }
    }
}

proof fn lemma_paths_through_bound(paths: Seq<Vec<u32>>, c: int, k: int)
    requires
        0 <= k,
    ensures
        paths_through(paths, c, k) <= k,
    decreases k,
{
    if k > 0 {
        lemma_paths_through_bound(paths, c, k - 1);
    }
}

/// The trunk raster: for each of `n_cells` cells, the number of trunk
/// edge paths that traverse it (a path that visits a cell twice counts
/// once).
pub fn trunk_raster(n_cells: usize, paths: &[Vec<u32>]) -> (raster: Vec<u32>)
    requires
        n_cells <= u32::MAX,
        paths@.len() <= u32::MAX,
        forall|j: int, t: int|
            0 <= j < paths@.len() && 0 <= t < paths@[j]@.len() ==> (#[trigger] paths@[j]@[t] as int) < n_cells,
    ensures
        raster@.len() == n_cells,
        forall|c: int| 0 <= c < n_cells ==> #[trigger] raster@[c] as nat == paths_through(paths@, c, paths@.len() as int),
{
    let mut raster: Vec<u32> = Vec::new();
    let mut last: Vec<usize> = Vec::new();
    let mut i: usize = 0;
    while i < n_cells
        invariant
            i <= n_cells,
            raster@.len() == i,
            last@.len() == i,
            forall|c: int| 0 <= c < i ==> #[trigger] raster@[c] == 0,
            forall|c: int| 0 <= c < i ==> #[trigger] last@[c] == 0,
        decreases n_cells - i,
    {
        raster.push(0);
        last.push(0);
        i = i + 1;
    }
    let mut j: usize = 0;
    while j < paths.len()
        invariant
            j <= paths@.len(),
            n_cells <= u32::MAX,
            paths@.len() <= u32::MAX,
            raster@.len() == n_cells,
            last@.len() == n_cells,
            forall|jj: int, t: int|
                0 <= jj < paths@.len() && 0 <= t < paths@[jj]@.len() ==> (#[trigger] paths@[jj]@[t] as int) < n_cells,
            forall|c: int| 0 <= c < n_cells ==> #[trigger] raster@[c] as nat == paths_through(paths@, c, j as int),
            forall|c: int| 0 <= c < n_cells ==> #[trigger] last@[c] <= j,
        decreases paths@.len() - j,
    {
        let p = &paths[j];
        let mut t: usize = 0;
        proof {
            assert(p@.take(0) =~= Seq::<u32>::empty());
            assert forall|tt: int| 0 <= tt < p@.len() implies (#[trigger] p@[tt] as int) < n_cells by {
                assert(paths@[j as int]@[tt] == p@[tt]);
            }
        }
        while t < p.len()
            invariant
                j < paths@.len(),
                n_cells <= u32::MAX,
                paths@.len() <= u32::MAX,
                *p == paths@[j as int],
                t <= p@.len(),
                raster@.len() == n_cells,
                last@.len() == n_cells,
                forall|tt: int| 0 <= tt < p@.len() ==> (#[trigger] p@[tt] as int) < n_cells,
                forall|c: int| 0 <= c < n_cells ==> #[trigger] last@[c] <= j + 1,
                forall|c: int| 0 <= c < n_cells ==> (#[trigger] last@[c] == j + 1 <==> p@.take(t as int).contains(c as u32)),
                forall|c: int|
                    0 <= c < n_cells ==> #[trigger] raster@[c] as nat == paths_through(paths@, c, j as int) + if p@.take(
                        t as int,
                    ).contains(c as u32) {
                        1nat
                    } else {
                        0nat
                    },
            decreases p@.len() - t,
        {
            let c = p[t];
            let ghost before = p@.take(t as int);
            proof {
                assert(p@.take(t + 1) =~= before.push(c));
                lemma_paths_through_bound(paths@, c as int, j as int);
            }
            let ghost r0 = raster@;
            let ghost l0 = last@;
            if last[c as usize] != j + 1 {
                raster.set(c as usize, raster[c as usize] + 1);
                last.set(c as usize, j + 1);
            }
            proof {
                assert forall|x: int| #![trigger last@[x]] #![trigger raster@[x]] 0 <= x < n_cells implies (last@[x] == j + 1 <==> p@.take(
                    t + 1,
                ).contains(x as u32)) && raster@[x] as nat == paths_through(paths@, x, j as int) + if p@.take(
                    t + 1,
                ).contains(x as u32) {
                    1nat
                } else {
                    0nat
                } by {
                    let xs = x as u32;
                    if p@.take(t + 1).contains(xs) {
                        let k = choose|k: int| 0 <= k < p@.take(t + 1).len() && #[trigger] p@.take(t + 1)[k] == xs;
                        if k < t {
                            assert(before[k] == xs);
                        }
                    }
                    if before.contains(xs) {
                        let k = choose|k: int| 0 <= k < before.len() && #[trigger] before[k] == xs;
                        assert(p@.take(t + 1)[k] == xs);
                    }
                    if xs == c {
                        assert(p@.take(t + 1)[t as int] == xs);
                    }
                    assert(p@.take(t + 1).contains(xs) <==> (before.contains(xs) || xs == c));
                    if x != c as int {
                        assert(last@[x] == l0[x] && raster@[x] == r0[x]);
                        assert(x as u32 != c);
                    }
                }
            }
            t = t + 1;
        }
        proof {
            assert(p@.take(p@.len() as int) =~= p@);
            assert(p@ == paths@[j as int]@);
            assert forall|c: int| 0 <= c < n_cells implies #[trigger] raster@[c] as nat == paths_through(paths@, c, j + 1) by {
                assert(p@.take(p@.len() as int).contains(c as u32) == paths@[j as int]@.contains(c as u32));
                assert(paths_through(paths@, c, j + 1) == paths_through(paths@, c, j as int) + if paths@[j as int]@.contains(c as u32) {
                    1nat
                } else {
                    0nat
                });
            }
        }
        j = j + 1;
    }
    raster
}

} // verus!
