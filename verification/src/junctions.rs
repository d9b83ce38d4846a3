//! Junctions of the trunk network. The trunk paths, taken together, form
//! a graph whose vertices are cells and whose edges join consecutive,
//! distinct cells of a path; a junction is a vertex where three or more
//! distinct neighbours meet, or where a trunk ends.

use vstd::prelude::*;

use crate::corridors::{Junction, TrunkNode};
use crate::order::{sort_u64, sorted_u64};

verus! {

/// The number of cell values: pair keys put the first cell above it.
pub open spec fn cell_span() -> int {
    0x1_0000_0000
}

/// The `u64` key of the ordered pair `(p, q)`: `p` in the high half,
/// `q` in the low half, so keys sort by `p`, then by `q`.
pub open spec fn pair_key(p: int, q: int) -> int {
    p * cell_span() + q
}

/// Step `j` of trunk path `e` joins `p` and `q`, in either direction.
pub open spec fn step_joins(paths: Seq<Vec<u32>>, e: int, j: int, p: u32, q: u32) -> bool {
    &&& 0 <= e < paths.len()
    &&& 0 <= j
    &&& j + 1 < paths[e]@.len()
    &&& ((paths[e]@[j] == p && paths[e]@[j + 1] == q) || (paths[e]@[j] == q && paths[e]@[j + 1] == p))
}

/// `p` and `q` are distinct cells that follow one another on a trunk path.
pub open spec fn linked(paths: Seq<Vec<u32>>, p: u32, q: u32) -> bool {
    p != q && exists|e: int, j: int| #[trigger] step_joins(paths, e, j, p, q)
}

/// The distinct neighbours of `p` in the union of the trunk paths.
pub open spec fn neighbours(paths: Seq<Vec<u32>>, p: u32) -> Set<u32> {
    Set::new(|q: u32| linked(paths, p, q))
}

/// `p` is the cell of a trunk's end node.
pub open spec fn trunk_end(nodes: Seq<TrunkNode>, ends: Seq<(u32, u32)>, p: u32) -> bool {
    exists|e: int|
        0 <= e < ends.len() && (nodes[(#[trigger] ends[e]).0 as int].cell == p || nodes[ends[e].1 as int].cell == p)
}

/// `p` is a vertex of the union graph (it has a neighbour) whose degree,
/// as a `u32`, is at least 3, or it is a trunk end.
pub open spec fn is_junction(paths: Seq<Vec<u32>>, nodes: Seq<TrunkNode>, ends: Seq<(u32, u32)>, p: u32) -> bool {
    &&& exists|q: u32| #[trigger] linked(paths, p, q)
    &&& (neighbours(paths, p).len() as u32 >= 3 || trunk_end(nodes, ends, p))
}

/// The trunks among the first `k` whose path passes through `p`, ascending.
pub open spec fn incident_upto(paths: Seq<Vec<u32>>, p: u32, k: int) -> Seq<u32>
    decreases k,
{
    if k <= 0 {
        Seq::empty()
    } else if paths[k - 1]@.contains(p) {
        incident_upto(paths, p, k - 1).push((k - 1) as u32)
    } else {
        incident_upto(paths, p, k - 1)
    }
}

/// `j` describes junction cell `p` of the trunk paths on a grid `w` wide.
pub open spec fn junction_describes(w: u32, paths: Seq<Vec<u32>>, j: Junction) -> bool {
    &&& j.x == j.cell % w
    &&& j.y == j.cell / w
    &&& j.degree == neighbours(paths, j.cell).len() as u32
    &&& j.edges@ == incident_upto(paths, j.cell, paths.len() as int)
}

/// The first cell of a pair key.
pub open spec fn key_cell(k: u64) -> u32 {
    (k / 0x1_0000_0000) as u32
}

/// The second cell of a pair key.
pub open spec fn key_other(k: u64) -> u32 {
    (k % 0x1_0000_0000) as u32
}

proof fn lemma_key_parts(p: int, q: int)
    requires
        0 <= p < cell_span(),
        0 <= q < cell_span(),
    ensures
        0 <= pair_key(p, q) <= u64::MAX,
        pair_key(p, q) / cell_span() == p,
        pair_key(p, q) % cell_span() == q,
{
    vstd::arithmetic::div_mod::lemma_fundamental_div_mod_converse(pair_key(p, q), cell_span(), p, q);
}

proof fn lemma_key_split(k: int)
    requires
        0 <= k <= u64::MAX,
    ensures
        0 <= k / cell_span() < cell_span(),
        0 <= k % cell_span() < cell_span(),
        k == pair_key(k / cell_span(), k % cell_span()),
{
    vstd::arithmetic::div_mod::lemma_fundamental_div_mod(k, cell_span());
}

/// Collects the key of both orientations of every step that joins two
/// distinct cells, ascending.
fn step_keys(paths: &[Vec<u32>]) -> (keys: Vec<u64>)
    ensures
        sorted_u64(keys@),
        forall|t: int| 0 <= t < keys@.len() ==> linked(paths@, key_cell(#[trigger] keys@[t]), key_other(keys@[t])),
        forall|p: u32, q: u32| #[trigger] linked(paths@, p, q) ==> keys@.contains(pair_key(p as int, q as int) as u64),
{
    let mut keys: Vec<u64> = Vec::new();
    let mut e: usize = 0;
    while e < paths.len()
        invariant
            e <= paths@.len(),
            forall|t: int| 0 <= t < keys@.len() ==> linked(paths@, key_cell(#[trigger] keys@[t]), key_other(keys@[t])),
            forall|e2: int, j2: int, p: u32, q: u32|
                e2 < e && p != q && #[trigger] step_joins(paths@, e2, j2, p, q) ==> keys@.contains(
                    pair_key(p as int, q as int) as u64,
                ),
        decreases paths@.len() - e,
    {
        let path = &paths[e];
        let mut j: usize = 0;
        while path.len() > 0 && j < path.len() - 1
            invariant
                e < paths@.len(),
                path@ == paths@[e as int]@,
                j <= path@.len(),
                forall|t: int| 0 <= t < keys@.len() ==> linked(paths@, key_cell(#[trigger] keys@[t]), key_other(keys@[t])),
                forall|e2: int, j2: int, p: u32, q: u32|
                    (e2 < e || (e2 == e && j2 < j)) && p != q && #[trigger] step_joins(paths@, e2, j2, p, q)
                        ==> keys@.contains(pair_key(p as int, q as int) as u64),
            decreases path@.len() - j,
        {
            let a = path[j];
            let b = path[j + 1];
            if a != b {
                let ghost before = keys@;
                proof {
                    lemma_key_parts(a as int, b as int);
                    lemma_key_parts(b as int, a as int);
                    assert(step_joins(paths@, e as int, j as int, a, b));
                    assert(step_joins(paths@, e as int, j as int, b, a));
                }
                let kab: u64 = (a as u64) * 0x1_0000_0000 + (b as u64);
                let kba: u64 = (b as u64) * 0x1_0000_0000 + (a as u64);
                keys.push(kab);
                keys.push(kba);
                proof {
                    assert(keys@[before.len() as int] == kab);
                    assert(keys@[before.len() as int + 1] == kba);
                    assert forall|t: int| 0 <= t < keys@.len() implies linked(paths@, key_cell(#[trigger] keys@[t]), key_other(keys@[t])) by {
                        if t < before.len() {
                            assert(keys@[t] == before[t]);
                        }
                    }
                    assert forall|e2: int, j2: int, p: u32, q: u32|
                        (e2 < e || (e2 == e && j2 < j + 1)) && p != q && #[trigger] step_joins(paths@, e2, j2, p, q)
                            implies keys@.contains(pair_key(p as int, q as int) as u64) by {
                        if e2 == e && j2 == j {
                            if p == a {
                                assert(keys@[before.len() as int] == pair_key(p as int, q as int) as u64);
                            } else {
                                assert(keys@[before.len() as int + 1] == pair_key(p as int, q as int) as u64);
                            }
                        } else {
                            let t = choose|t: int| 0 <= t < before.len() && before[t] == pair_key(p as int, q as int) as u64;
                            assert(keys@[t] == before[t]);
                        }
                    }
                }
            }
            j = j + 1;
        }
        e = e + 1;
    }
    let ghost unsorted = keys@;
    sort_u64(&mut keys);
    proof {
        assert forall|t: int| 0 <= t < keys@.len() implies linked(paths@, key_cell(#[trigger] keys@[t]), key_other(keys@[t])) by {
            vstd::seq_lib::to_multiset_contains(keys@, keys@[t]);
            vstd::seq_lib::to_multiset_contains(unsorted, keys@[t]);
            let s = choose|s: int| 0 <= s < unsorted.len() && unsorted[s] == keys@[t];
            assert(unsorted[s] == keys@[t]);
        }
        assert forall|p: u32, q: u32| #[trigger] linked(paths@, p, q) implies keys@.contains(
            pair_key(p as int, q as int) as u64,
        ) by {
            let (e2, j2) = choose|e2: int, j2: int| #[trigger] step_joins(paths@, e2, j2, p, q);
            assert(unsorted.contains(pair_key(p as int, q as int) as u64));
            vstd::seq_lib::to_multiset_contains(unsorted, pair_key(p as int, q as int) as u64);
            vstd::seq_lib::to_multiset_contains(keys@, pair_key(p as int, q as int) as u64);
        }
    }
    keys
}

/// Keys in ascending order have ascending first cells.
proof fn lemma_key_cell_ordered(k1: u64, k2: u64)
    requires
        k1 <= k2,
    ensures
        key_cell(k1) <= key_cell(k2),
{
    lemma_key_split(k1 as int);
    lemma_key_split(k2 as int);
    vstd::arithmetic::div_mod::lemma_div_is_ordered(k1 as int, k2 as int, cell_span());
}

/// Whether `p` is the cell of one of the trunks' end nodes.
fn ends_at(nodes: &[TrunkNode], ends: &[(u32, u32)], p: u32) -> (found: bool)
    requires
        forall|e: int| 0 <= e < ends@.len() ==> (#[trigger] ends@[e]).0 < nodes@.len() && ends@[e].1 < nodes@.len(),
    ensures
        found == trunk_end(nodes@, ends@, p),
{
    let mut e: usize = 0;
    while e < ends.len()
        invariant
            e <= ends@.len(),
            forall|e2: int| 0 <= e2 < ends@.len() ==> (#[trigger] ends@[e2]).0 < nodes@.len() && ends@[e2].1 < nodes@.len(),
            forall|e2: int|
                0 <= e2 < e ==> !(nodes@[(#[trigger] ends@[e2]).0 as int].cell == p || nodes@[ends@[e2].1 as int].cell == p),
        decreases ends@.len() - e,
    {
        let (a, b) = ends[e];
        if nodes[a as usize].cell == p || nodes[b as usize].cell == p {
            assert(nodes@[ends@[e as int].0 as int].cell == p || nodes@[ends@[e as int].1 as int].cell == p);
            return true;
        }
        e = e + 1;
    }
    false
}

/// Whether `cells` holds `p`.
fn holds(cells: &[u32], p: u32) -> (found: bool)
    ensures
        found == cells@.contains(p),
{
    let mut j: usize = 0;
    while j < cells.len()
        invariant
            j <= cells@.len(),
            forall|t: int| 0 <= t < j ==> cells@[t] != p,
        decreases cells@.len() - j,
    {
        if cells[j] == p {
            return true;
        }
        j = j + 1;
    }
    false
}

/// The trunks whose path passes through `p`, ascending.
fn incident(paths: &[Vec<u32>], p: u32) -> (trunks: Vec<u32>)
    requires
        paths@.len() <= u32::MAX,
    ensures
        trunks@ == incident_upto(paths@, p, paths@.len() as int),
{
    let mut trunks: Vec<u32> = Vec::new();
    let mut e: usize = 0;
    while e < paths.len()
        invariant
            e <= paths@.len(),
            paths@.len() <= u32::MAX,
            trunks@ == incident_upto(paths@, p, e as int),
        decreases paths@.len() - e,
    {
        if holds(paths[e].as_slice(), p) {
            trunks.push(e as u32);
        }
        e = e + 1;
    }
    trunks
}

/// Scans the run of keys from `i` that share its first cell `p`: returns
/// the end of the run and the number of distinct second cells in it,
/// which is the number of distinct neighbours of `p`.
fn scan_group(paths: &[Vec<u32>], keys: &Vec<u64>, i: usize) -> (r: (usize, usize))
    requires
        i < keys@.len(),
        sorted_u64(keys@),
        forall|t: int| 0 <= t < keys@.len() ==> linked(paths@, key_cell(#[trigger] keys@[t]), key_other(keys@[t])),
        forall|p: u32, q: u32| #[trigger] linked(paths@, p, q) ==> keys@.contains(pair_key(p as int, q as int) as u64),
        0 < i ==> key_cell(keys@[i - 1]) < key_cell(keys@[i as int]),
    ensures
        i < r.0 <= keys@.len(),
        forall|t: int| i <= t < r.0 ==> #[trigger] key_cell(keys@[t]) == key_cell(keys@[i as int]),
        r.0 < keys@.len() ==> key_cell(keys@[i as int]) < key_cell(keys@[r.0 as int]),
        r.1 == neighbours(paths@, key_cell(keys@[i as int])).len(),
{
    let p: u32 = (keys[i] / 0x1_0000_0000) as u32;
    proof {
        lemma_key_split(keys@[i as int] as int);
    }
        let mut j: usize = i;
    let mut deg: usize = 0;
    let ghost mut dn: Seq<u32> = Seq::empty();
    while j < keys.len() && keys[j] / 0x1_0000_0000 == p as u64
        invariant
            i < keys@.len(),
            i <= j <= keys@.len(),
            p == key_cell(keys@[i as int]),
            sorted_u64(keys@),
            forall|t: int| i <= t < j ==> #[trigger] key_cell(keys@[t]) == p,
            deg == dn.len(),
            deg <= j - i,
            forall|s: int, t: int| 0 <= s < t < dn.len() ==> dn[s] < dn[t],
            forall|q: u32| dn.contains(q) <==> exists|t: int| i <= t < j && #[trigger] key_other(keys@[t]) == q,
            j > i ==> dn.len() > 0 && dn.last() == key_other(keys@[j - 1]),
        decreases keys@.len() - j,
    {
        let k = keys[j];
        proof {
            lemma_key_split(k as int);
            assert(key_cell(keys@[j as int]) == p);
        }
        if j == i || k != keys[j - 1] {
            proof {
                if j > i {
                    lemma_key_split(keys@[j - 1] as int);
                    assert(keys@[j - 1] <= k);
                    assert(key_other(keys@[j - 1]) < key_other(k));
                }
                let old_dn = dn;
                dn = dn.push(key_other(k));
                assert forall|q: u32| dn.contains(q) <==> exists|t: int| i <= t < j + 1 && #[trigger] key_other(keys@[t]) == q by {
                    if dn.contains(q) {
                        let s = choose|s: int| 0 <= s < dn.len() && dn[s] == q;
                        if s < old_dn.len() {
                            assert(old_dn[s] == q);
                            assert(old_dn.contains(q));
                        } else {
                            assert(key_other(keys@[j as int]) == q);
                        }
                    }
                    if exists|t: int| i <= t < j + 1 && #[trigger] key_other(keys@[t]) == q {
                        let t = choose|t: int| i <= t < j + 1 && #[trigger] key_other(keys@[t]) == q;
                        if t < j {
                            assert(old_dn.contains(q));
                            let s = choose|s: int| 0 <= s < old_dn.len() && old_dn[s] == q;
                            assert(dn[s] == q);
                        } else {
                            assert(dn[old_dn.len() as int] == q);
                        }
                    }
                }
            }
            deg = deg + 1;
        } else {
            proof {
                assert forall|q: u32| dn.contains(q) <==> exists|t: int| i <= t < j + 1 && #[trigger] key_other(keys@[t]) == q by {
                    if exists|t: int| i <= t < j + 1 && #[trigger] key_other(keys@[t]) == q {
                        let t = choose|t: int| i <= t < j + 1 && #[trigger] key_other(keys@[t]) == q;
                        if t == j {
                            assert(dn[dn.len() - 1] == q);
                        }
                    }
                }
            }
        }
        j = j + 1;
    }
    proof {
        // Every key whose first cell is `p` lies in `i..j`.
        assert forall|t: int| 0 <= t < keys@.len() && #[trigger] key_cell(keys@[t]) == p implies i <= t < j by {
            if t < i {
                lemma_key_cell_ordered(keys@[t], keys@[i - 1]);
            }
            if t >= j {
                lemma_key_split(keys@[j as int] as int);
                lemma_key_cell_ordered(keys@[i as int], keys@[j as int]);
                lemma_key_cell_ordered(keys@[j as int], keys@[t]);
            }
        }
        assert(dn.to_set() =~= neighbours(paths@, p)) by {
            assert forall|q: u32| dn.to_set().contains(q) implies neighbours(paths@, p).contains(q) by {
                let t = choose|t: int| i <= t < j && #[trigger] key_other(keys@[t]) == q;
                assert(linked(paths@, key_cell(keys@[t]), key_other(keys@[t])));
            }
            assert forall|q: u32| neighbours(paths@, p).contains(q) implies dn.to_set().contains(q) by {
                assert(linked(paths@, p, q));
                let kk = pair_key(p as int, q as int) as u64;
                assert(keys@.contains(kk));
                let t = choose|t: int| 0 <= t < keys@.len() && keys@[t] == kk;
                lemma_key_parts(p as int, q as int);
                assert(key_cell(keys@[t]) == p);
                assert(key_other(keys@[t]) == q);
            }
        }
        assert(dn.no_duplicates()) by {
            assert forall|s: int, t: int| 0 <= s < dn.len() && 0 <= t < dn.len() && s != t implies dn[s] != dn[t] by {
                if s < t {
                    assert(dn[s] < dn[t]);
                } else {
                    assert(dn[t] < dn[s]);
                }
            }
        }
        dn.unique_seq_to_set();
        assert(linked(paths@, key_cell(keys@[i as int]), key_other(keys@[i as int])));
    }
    proof {
        if j < keys@.len() {
            lemma_key_split(keys@[j as int] as int);
            lemma_key_cell_ordered(keys@[i as int], keys@[j as int]);
        }
    }
    (j, deg)
}

/// Some junction of `out` sits at `c`.
pub open spec fn listed(out: Seq<Junction>, c: u32) -> bool {
    exists|t: int| 0 <= t < out.len() && out[t].cell == c
}

/// Some key among the first `i` has first cell `c`.
pub open spec fn scanned(keys: Seq<u64>, i: int, c: u32) -> bool {
    exists|s: int| 0 <= s < i && key_cell(keys[s]) == c
}

/// The junctions of the union of the trunk paths, ascending by cell: the
/// cells with at least one neighbour whose number of distinct neighbours
/// (as a `u32`) is at least 3, or that are the cell of a trunk's end node.
/// Each lists its coordinates on a grid `w` wide, its degree, and the
/// trunks through it.
#[verifier::rlimit(60)]
#[verifier::spinoff_prover]
pub fn derive_junctions(w: u32, paths: &[Vec<u32>], ends: &[(u32, u32)], nodes: &[TrunkNode]) -> (out: Vec<Junction>)
    requires
        w > 0,
        paths@.len() <= u32::MAX,
        forall|e: int| 0 <= e < ends@.len() ==> (#[trigger] ends@[e]).0 < nodes@.len() && ends@[e].1 < nodes@.len(),
    ensures
        forall|s: int, t: int| 0 <= s < t < out@.len() ==> out@[s].cell < out@[t].cell,
        forall|t: int| 0 <= t < out@.len() ==> junction_describes(w, paths@, #[trigger] out@[t]),
        forall|p: u32| #[trigger] is_junction(paths@, nodes@, ends@, p) <==> listed(out@, p),
{
    let keys = step_keys(paths);
    let mut out: Vec<Junction> = Vec::new();
    let mut i: usize = 0;
    while i < keys.len()
        invariant
            w > 0,
            paths@.len() <= u32::MAX,
            forall|e: int| 0 <= e < ends@.len() ==> (#[trigger] ends@[e]).0 < nodes@.len() && ends@[e].1 < nodes@.len(),
            i <= keys@.len(),
            sorted_u64(keys@),
            forall|t: int| 0 <= t < keys@.len() ==> linked(paths@, key_cell(#[trigger] keys@[t]), key_other(keys@[t])),
            forall|p: u32, q: u32| #[trigger] linked(paths@, p, q) ==> keys@.contains(pair_key(p as int, q as int) as u64),
            0 < i < keys@.len() ==> key_cell(keys@[i - 1]) < key_cell(keys@[i as int]),
            forall|s: int, t: int| 0 <= s < t < out@.len() ==> out@[s].cell < out@[t].cell,
            forall|t: int| 0 <= t < out@.len() ==> junction_describes(w, paths@, #[trigger] out@[t]),
            forall|c: u32| #[trigger] listed(out@, c) <==> (is_junction(paths@, nodes@, ends@, c) && scanned(keys@, i as int, c)),
        decreases keys@.len() - i,
    {
        let p: u32 = (keys[i] / 0x1_0000_0000) as u32;
        proof {
            lemma_key_split(keys@[i as int] as int);
        }
        let (j, deg) = scan_group(paths, &keys, i);
        proof {
            assert(linked(paths@, key_cell(keys@[i as int]), key_other(keys@[i as int])));
            // Every key whose first cell is `p` lies in `i..j`.
            assert forall|t: int| 0 <= t < keys@.len() && #[trigger] key_cell(keys@[t]) == p implies i <= t < j by {
                if t < i {
                    lemma_key_cell_ordered(keys@[t], keys@[i - 1]);
                }
                if t >= j {
                    lemma_key_cell_ordered(keys@[j as int], keys@[t]);
                }
            }
            // The cells already listed lie below `p`.
            assert forall|t: int| 0 <= t < out@.len() implies out@[t].cell < p by {
                let c = out@[t].cell;
                assert(listed(out@, c));
                let s = choose|s: int| 0 <= s < i && key_cell(keys@[s]) == c;
                lemma_key_cell_ordered(keys@[s], keys@[i - 1]);
            }
        }
        let end = ends_at(nodes, ends, p);
        let ghost before = out@;
        if deg as u32 >= 3 || end {
            let edges = incident(paths, p);
            let jn = Junction { cell: p, x: p % w, y: p / w, degree: deg as u32, edges };
            out.push(jn);
            proof {
                assert(is_junction(paths@, nodes@, ends@, p));
                assert(out@[before.len() as int] == jn);
                assert forall|t: int| 0 <= t < out@.len() implies junction_describes(w, paths@, #[trigger] out@[t]) by {
                    if t < before.len() {
                        assert(out@[t] == before[t]);
                    }
                }
                assert forall|s2: int, t: int| 0 <= s2 < t < out@.len() implies out@[s2].cell < out@[t].cell by {
                    assert(out@[s2] == before[s2]);
                    if t < before.len() {
                        assert(out@[t] == before[t]);
                    }
                }
            }
        } else {
            proof {
                assert(!is_junction(paths@, nodes@, ends@, p));
            }
        }
        proof {
            assert forall|c: u32| #[trigger] listed(out@, c) <==> (is_junction(paths@, nodes@, ends@, c) && scanned(keys@, j as int, c)) by {
                if listed(out@, c) {
                    let t = choose|t: int| 0 <= t < out@.len() && out@[t].cell == c;
                    if t < before.len() {
                        assert(before[t].cell == c);
                        assert(listed(before, c));
                        let s = choose|s: int| 0 <= s < i && key_cell(keys@[s]) == c;
                        assert(0 <= s < j);
                    } else {
                        assert(key_cell(keys@[i as int]) == c);
                    }
                }
                if is_junction(paths@, nodes@, ends@, c) && scanned(keys@, j as int, c) {
                    let s = choose|s: int| 0 <= s < j && key_cell(keys@[s]) == c;
                    if c != p {
                        assert(s < i);
                        assert(scanned(keys@, i as int, c));
                        assert(listed(before, c));
                        let t2 = choose|t2: int| 0 <= t2 < before.len() && before[t2].cell == c;
                        assert(out@[t2] == before[t2]);
                    } else {
                        assert(out@[before.len() as int].cell == c);
                    }
                }
            }
            if 0 < j < keys@.len() {
                assert(key_cell(keys@[j - 1]) == p);
            }
        }
        i = j;
    }
    proof {
        assert forall|p: u32| #[trigger] is_junction(paths@, nodes@, ends@, p) <==> listed(out@, p) by {
            if is_junction(paths@, nodes@, ends@, p) {
                let q = choose|q: u32| #[trigger] linked(paths@, p, q);
                let kk = pair_key(p as int, q as int) as u64;
                let t = choose|t: int| 0 <= t < keys@.len() && keys@[t] == kk;
                lemma_key_parts(p as int, q as int);
                assert(key_cell(keys@[t]) == p);
                assert(scanned(keys@, i as int, p));
            }
        }
    }
    out
}

} // verus!
