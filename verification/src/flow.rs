//! Flow topology on the D8 receiver forest: donor adjacency, the
//! Braun–Willett stack, drainage-area accumulation, basin labels and
//! Strahler orders. A cell's receiver is the cell it drains to; base
//! cells (ocean) receive themselves.

use vstd::prelude::*;

verus! {

/// Every receiver names a cell of the grid.
pub open spec fn receivers_in_range(rc: Seq<u32>) -> bool {
    forall|i: int| 0 <= i < rc.len() ==> (#[trigger] rc[i] as int) < rc.len()
}

/// `d` drains directly into `c` (and is not a base cell).
pub open spec fn is_donor(rc: Seq<u32>, d: int, c: int) -> bool {
    rc[d] as int == c && d != c
}

/// The donors of `c` among cells `0..k`, in ascending order.
pub open spec fn donors_upto(rc: Seq<u32>, c: int, k: int) -> Seq<u32>
    decreases k,
{
    if k <= 0 {
        Seq::empty()
    } else if is_donor(rc, k - 1, c) {
        donors_upto(rc, c, k - 1).push((k - 1) as u32)
    } else {
        donors_upto(rc, c, k - 1)
    }
}

/// The donors of `c`: every cell whose receiver is `c`, ascending.
pub open spec fn donors_of(rc: Seq<u32>, c: int) -> Seq<u32> {
    donors_upto(rc, c, rc.len() as int)
}

/// Number of donors of `c` among cells `0..k`.
pub open spec fn donor_count(rc: Seq<u32>, c: int, k: int) -> nat {
    donors_upto(rc, c, k).len()
}

/// Number of non-base cells among `0..k` whose receiver is below `m`.
pub open spec fn drained_below(rc: Seq<u32>, m: int, k: int) -> nat
    decreases k,
{
    if k <= 0 {
        0
    } else if (rc[k - 1] as int) < m && rc[k - 1] as int != k - 1 {
        drained_below(rc, m, k - 1) + 1
    } else {
        drained_below(rc, m, k - 1)
    }
}

/// Total donor count of cells `0..m` (the CSR offsets).
pub open spec fn donor_prefix(rc: Seq<u32>, m: int) -> nat
    decreases m,
{
    if m <= 0 {
        0
    } else {
        donor_prefix(rc, m - 1) + donor_count(rc, m - 1, rc.len() as int)
    }
}

pub proof fn lemma_donors_upto(rc: Seq<u32>, c: int, k: int)
    requires
        0 <= k <= rc.len(),
        rc.len() <= u32::MAX,
    ensures
        forall|i: int|
            0 <= i < donors_upto(rc, c, k).len() ==> {
                let d = #[trigger] donors_upto(rc, c, k)[i] as int;
                0 <= d < k && is_donor(rc, d, c)
            },
        forall|i: int, j: int|
            0 <= i < j < donors_upto(rc, c, k).len() ==> donors_upto(rc, c, k)[i]
                < donors_upto(rc, c, k)[j],
        forall|d: int|
            0 <= d < k && is_donor(rc, d, c) ==> #[trigger] donors_upto(rc, c, k).contains(
                d as u32,
            ),
        donors_upto(rc, c, k).len() <= k,
    decreases k,
{
    if k > 0 {
        lemma_donors_upto(rc, c, k - 1);
        let prev = donors_upto(rc, c, k - 1);
        if is_donor(rc, k - 1, c) {
            let cur = prev.push((k - 1) as u32);
            assert(cur[prev.len() as int] == (k - 1) as u32);
            assert(cur == donors_upto(rc, c, k));
            assert forall|i: int| 0 <= i < cur.len() implies {
                let d = #[trigger] cur[i] as int;
                0 <= d < k && is_donor(rc, d, c)
            } by {
                if i < prev.len() {
                    assert(cur[i] == prev[i]);
                }
            }
            assert forall|i: int, j: int| 0 <= i < j < cur.len() implies cur[i] < cur[j] by {
                assert(cur[i] == prev[i]);
                if j < prev.len() {
                    assert(cur[j] == prev[j]);
                }
            }
            assert forall|d: int| 0 <= d < k && is_donor(rc, d, c) implies #[trigger] cur.contains(
                d as u32,
            ) by {
                if d < k - 1 {
                    assert(prev.contains(d as u32));
                    let w = choose|w: int| 0 <= w < prev.len() && prev[w] == d as u32;
                    assert(cur[w] == d as u32);
                } else {
                    assert(cur[prev.len() as int] == d as u32);
                }
            }
        }
    }
}

/// `donor_count` grows by one exactly at each donor.
pub proof fn lemma_donor_count_step(rc: Seq<u32>, c: int, k: int)
    requires
        0 <= k,
    ensures
        donor_count(rc, c, k + 1) == donor_count(rc, c, k) + if is_donor(rc, k, c) {
            1nat
        } else {
            0nat
        },
{
}

pub proof fn lemma_donor_count_mono(rc: Seq<u32>, c: int, k1: int, k2: int)
    requires
        0 <= k1 <= k2,
    ensures
        donor_count(rc, c, k1) <= donor_count(rc, c, k2),
    decreases k2 - k1,
{
    if k1 < k2 {
        lemma_donor_count_mono(rc, c, k1, k2 - 1);
        lemma_donor_count_step(rc, c, k2 - 1);
    }
}

/// Summing donor counts over receivers `0..m` counts each non-base cell
/// draining below `m` once.
pub proof fn lemma_prefix_counts(rc: Seq<u32>, m: int, k: int)
    requires
        0 <= m,
        0 <= k <= rc.len(),
    ensures
        donor_prefix_at(rc, m, k) == drained_below(rc, m, k),
    decreases m,
{
    if m > 0 {
        lemma_prefix_counts(rc, m - 1, k);
        lemma_count_below_step(rc, m - 1, k);
    } else {
        lemma_drained_below_zero(rc, k);
    }
}

proof fn lemma_drained_below_zero(rc: Seq<u32>, k: int)
    ensures
        drained_below(rc, 0, k) == 0,
    decreases k,
{
    if k > 0 {
        lemma_drained_below_zero(rc, k - 1);
    }
}

/// `donor_prefix` with counts taken over cells `0..k` only.
pub open spec fn donor_prefix_at(rc: Seq<u32>, m: int, k: int) -> nat
    decreases m,
{
    if m <= 0 {
        0
    } else {
        donor_prefix_at(rc, m - 1, k) + donor_count(rc, m - 1, k)
    }
}

proof fn lemma_count_below_step(rc: Seq<u32>, c: int, k: int)
    requires
        0 <= c,
        0 <= k <= rc.len(),
    ensures
        drained_below(rc, c + 1, k) == drained_below(rc, c, k) + donor_count(rc, c, k),
    decreases k,
{
    if k > 0 {
        lemma_count_below_step(rc, c, k - 1);
        lemma_donor_count_step(rc, c, k - 1);
    }
}

proof fn lemma_drained_below_le(rc: Seq<u32>, m: int, k: int)
    requires
        0 <= k,
    ensures
        drained_below(rc, m, k) <= k,
    decreases k,
{
    if k > 0 {
        lemma_drained_below_le(rc, m, k - 1);
    }
}

proof fn lemma_donor_prefix_mono(rc: Seq<u32>, a: int, b: int)
    requires
        0 <= a <= b,
    ensures
        donor_prefix(rc, a) <= donor_prefix(rc, b),
    decreases b - a,
{
    if a < b {
        lemma_donor_prefix_mono(rc, a, b - 1);
    }
}

/// Donor adjacency in CSR form: `donors(c)` = cells whose receiver is `c`,
/// in ascending index order.
pub struct DonorGraph {
    off: Vec<u32>,
    list: Vec<u32>,
}

impl DonorGraph {
    #[verifier::type_invariant]
    spec fn well_formed(&self) -> bool {
        &&& self.off@.len() >= 1
        &&& self.off@[0] == 0
        &&& self.off@.last() as int == self.list@.len()
        &&& forall|i: int, j: int|
            0 <= i <= j < self.off@.len() ==> self.off@[i] <= self.off@[j]
    }

    /// Number of cells the graph covers.
    pub closed spec fn num_cells(&self) -> nat {
        (self.off@.len() - 1) as nat
    }

    /// The donor list stored for cell `c`.
    pub closed spec fn spec_donors(&self, c: int) -> Seq<u32> {
        self.list@.subrange(self.off@[c] as int, self.off@[c + 1] as int)
    }

    /// The graph's donor lists are exactly those of `rc`.
    pub open spec fn represents(&self, rc: Seq<u32>) -> bool {
        &&& self.num_cells() == rc.len()
        &&& forall|c: int| 0 <= c < rc.len() ==> #[trigger] self.spec_donors(c) == donors_of(rc, c)
    }

    pub fn build(receivers: &[u32]) -> (g: DonorGraph)
        requires
            receivers_in_range(receivers@),
            receivers@.len() < u32::MAX,
        ensures
            g.represents(receivers@),
    {
        let ghost rc = receivers@;
        let n = receivers.len();
        // Counting pass: counts[r + 1] = number of donors of r.
        let mut counts: Vec<u32> = Vec::new();
        let mut i: usize = 0;
        while i <= n
            invariant
                n == rc.len(),
                n < u32::MAX,
                i <= n + 1,
                counts@.len() == i,
                forall|j: int| 0 <= j < i ==> counts@[j] == 0,
            decreases n + 1 - i,
        {
            counts.push(0);
            i = i + 1;
        }
        let mut c: usize = 0;
        while c < n
            invariant
                n == rc.len(),
                n < u32::MAX,
                receivers@ == rc,
                receivers_in_range(rc),
                c <= n,
                counts@.len() == n + 1,
                counts@[0] == 0,
                forall|r: int| 0 <= r < n ==> counts@[r + 1] == donor_count(rc, r, c as int),
            decreases n - c,
        {
            let r = receivers[c];
            proof {
                assert forall|q: int| 0 <= q < n implies donor_count(rc, q, c + 1) == donor_count(
                    rc,
                    q,
                    c as int,
                ) + if is_donor(rc, c as int, q) {
                    1nat
                } else {
                    0nat
                } by {
                    lemma_donor_count_step(rc, q, c as int);
                }
            }
            if r as usize != c {
                proof {
                    lemma_donors_upto(rc, r as int, c as int);
                    assert(counts@[r + 1] == donor_count(rc, r as int, c as int));
                    assert(counts@[r + 1] <= c);
                }
                counts.set(r as usize + 1, counts[r as usize + 1] + 1);
            }
            c = c + 1;
        }
        // Prefix pass: counts[i] = total donors of cells 0..i.
        let mut i: usize = 1;
        while i <= n
            invariant
                n == rc.len(),
                n < u32::MAX,
                receivers_in_range(rc),
                1 <= i <= n + 1,
                counts@.len() == n + 1,
                forall|j: int| 0 <= j < i ==> counts@[j] == donor_prefix(rc, j),
                forall|j: int| i <= j <= n ==> counts@[j] == donor_count(rc, j - 1, n as int),
            decreases n + 1 - i,
        {
            proof {
                lemma_prefix_counts(rc, i as int, n as int);
                lemma_prefix_at_full(rc, i as int);
                lemma_drained_below_le(rc, i as int, n as int);
                assert(counts@[i as int] == donor_count(rc, i - 1, n as int));
                assert(counts@[i - 1] == donor_prefix(rc, i - 1));
                assert(donor_prefix(rc, i as int) == donor_prefix(rc, i - 1) + donor_count(
                    rc,
                    i - 1,
                    n as int,
                ));
                assert(donor_prefix(rc, i as int) <= n);
            }
            counts.set(i, counts[i] + counts[i - 1]);
            i = i + 1;
        }
        let off = counts;
        proof {
            lemma_prefix_counts(rc, n as int, n as int);
            lemma_prefix_at_full(rc, n as int);
            lemma_drained_below_le(rc, n as int, n as int);
        }
        // Fill pass: place each donor at its receiver's cursor.
        let total = off[n] as usize;
        let mut list: Vec<u32> = Vec::new();
        let mut i: usize = 0;
        while i < total
            invariant
                i <= total,
                list@.len() == i,
            decreases total - i,
        {
            list.push(0);
            i = i + 1;
        }
        let mut cursor: Vec<u32> = Vec::new();
        let mut i: usize = 0;
        while i <= n
            invariant
                n < u32::MAX,
                i <= n + 1,
                off@.len() == n + 1,
                cursor@.len() == i,
                forall|j: int| 0 <= j < i ==> cursor@[j] == off@[j],
            decreases n + 1 - i,
        {
            cursor.push(off[i]);
            i = i + 1;
        }
        proof {
            assert forall|a: int, b: int| 0 <= a <= b <= n implies off@[a] <= off@[b] by {
                lemma_donor_prefix_mono(rc, a, b);
            }
            assert forall|q: int| 0 <= q < n implies off@[q + 1] == off@[q] + donor_count(
                rc,
                q,
                n as int,
            ) by {
                assert(off@[q + 1] == donor_prefix(rc, q + 1));
                assert(off@[q] == donor_prefix(rc, q));
            }
            assert forall|q: int| 0 <= q < n implies list@.subrange(
                off@[q] as int,
                cursor@[q] as int,
            ) == donors_upto(rc, q, 0) by {
                assert(list@.subrange(off@[q] as int, cursor@[q] as int) =~= Seq::<u32>::empty());
            }
        }
        let mut c: usize = 0;
        while c < n
            invariant
                n == rc.len(),
                n < u32::MAX,
                receivers@ == rc,
                receivers_in_range(rc),
                c <= n,
                off@.len() == n + 1,
                cursor@.len() == n + 1,
                list@.len() == total,
                total == off@[n as int],
                forall|j: int| 0 <= j <= n ==> off@[j] == donor_prefix(rc, j),
                forall|a: int, b: int| 0 <= a <= b <= n ==> off@[a] <= off@[b],
                forall|q: int| 0 <= q < n ==> off@[q + 1] == off@[q] + donor_count(rc, q, n as int),
                forall|r: int| 0 <= r < n ==> cursor@[r] == off@[r] + donor_count(rc, r, c as int),
                forall|r: int|
                    0 <= r < n ==> list@.subrange(off@[r] as int, cursor@[r] as int)
                        == donors_upto(rc, r, c as int),
            decreases n - c,
        {
            let r = receivers[c];
            let ghost old_list = list@;
            let ghost old_cursor = cursor@;
            proof {
                assert forall|q: int| 0 <= q < n implies donor_count(rc, q, c + 1) == donor_count(
                    rc,
                    q,
                    c as int,
                ) + if is_donor(rc, c as int, q) {
                    1nat
                } else {
                    0nat
                } by {
                    lemma_donor_count_step(rc, q, c as int);
                }
            }
            if r as usize != c {
                let ru = r as usize;
                proof {
                    lemma_donor_count_mono(rc, r as int, c + 1, n as int);
                    assert(donor_count(rc, r as int, c + 1) == donor_count(rc, r as int, c as int)
                        + 1);
                }
                let p = cursor[ru] as usize;
                assert(off@[ru as int] <= p < off@[ru + 1]);
                list.set(p, c as u32);
                cursor.set(ru, cursor[ru] + 1);
                proof {
                    assert forall|q: int| 0 <= q < n implies list@.subrange(
                        off@[q] as int,
                        cursor@[q] as int,
                    ) == donors_upto(rc, q, c + 1) by {
                        if q == r as int {
                            assert(list@.subrange(off@[q] as int, cursor@[q] as int)
                                =~= old_list.subrange(off@[q] as int, old_cursor[q] as int).push(
                                c as u32,
                            ));
                        } else if q < r as int {
                            assert(cursor@[q] <= off@[q + 1]) by {
                                lemma_donor_count_mono(rc, q, c as int, n as int);
                            }
                            assert(off@[q + 1] <= off@[r as int]);
                            assert(cursor@[q] == old_cursor[q]);
                            assert(list@.subrange(off@[q] as int, cursor@[q] as int)
                                =~= old_list.subrange(off@[q] as int, old_cursor[q] as int));
                        } else {
                            assert(off@[r as int + 1] <= off@[q]);
                            assert(cursor@[q] == old_cursor[q]);
                            assert(off@[q] <= cursor@[q]);
                            assert(cursor@[q] <= off@[q + 1]) by {
                                lemma_donor_count_mono(rc, q, c as int, n as int);
                            }
                            assert(off@[q + 1] <= off@[n as int]);
                            assert(p < off@[q]);
                            assert(list@.subrange(off@[q] as int, cursor@[q] as int)
                                =~= old_list.subrange(off@[q] as int, old_cursor[q] as int));
                        }
                    }
                }
            }
            c = c + 1;
        }
        proof {
            assert(off@[0] == donor_prefix(rc, 0));
            assert(off@.last() == off@[n as int]);
        }
        let g = DonorGraph { off, list };
        proof {
            assert forall|q: int| 0 <= q < n implies #[trigger] g.spec_donors(q) == donors_of(
                rc,
                q,
            ) by {
                assert(cursor@[q] == off@[q + 1]);
                assert(g.spec_donors(q) == list@.subrange(off@[q] as int, cursor@[q] as int));
            }
        }
        g
    }

    /// The donors of `c`, ascending.
    pub fn donors(&self, c: u32) -> (r: &[u32])
        requires
            (c as int) < self.num_cells(),
        ensures
            r@ == self.spec_donors(c as int),
    {
        proof {
            use_type_invariant(self);
        }
        let len = self.off.len();
        let ci = c as usize;
        let a = self.off[ci] as usize;
        let b = self.off[ci + 1] as usize;
        &self.list.as_slice()[a..b]
    }
}

proof fn lemma_prefix_at_full(rc: Seq<u32>, m: int)
    requires
        0 <= m,
    ensures
        donor_prefix_at(rc, m, rc.len() as int) == donor_prefix(rc, m),
    decreases m,
{
    if m > 0 {
        lemma_prefix_at_full(rc, m - 1);
    }
}

} // verus!

verus! {

/// Cell `s[i]` is a base cell, or its receiver appears earlier in `s`.
pub open spec fn receiver_before(rc: Seq<u32>, s: Seq<u32>, i: int) -> bool {
    rc[s[i] as int] == s[i] || s.subrange(0, i).contains(rc[s[i] as int])
}

/// `s` is a drainage order of the receiver forest `rc`: distinct cells,
/// each after its receiver, holding every base cell and closed under
/// donors (so it holds exactly the cells that drain to a base cell).
pub open spec fn is_drainage_order(rc: Seq<u32>, s: Seq<u32>) -> bool {
    &&& forall|i: int| 0 <= i < s.len() ==> (#[trigger] s[i] as int) < rc.len()
    &&& forall|i: int, j: int| 0 <= i < j < s.len() ==> s[i] != s[j]
    &&& forall|i: int| 0 <= i < s.len() ==> #[trigger] receiver_before(rc, s, i)
    &&& forall|b: int| 0 <= b < rc.len() && rc[b] as int == b ==> s.contains(b as u32)
    &&& forall|x: u32, d: int|
        #![trigger s.contains(x), is_donor(rc, d, x as int)]
        s.contains(x) && 0 <= d < rc.len() && is_donor(rc, d, x as int) ==> s.contains(d as u32)
}

/// Following receivers from `c`, a base cell is reached within `k` steps.
pub open spec fn drains_within(rc: Seq<u32>, c: int, k: nat) -> bool
    decreases k,
{
    rc[c] as int == c || (k > 0 && drains_within(rc, rc[c] as int, (k - 1) as nat))
}

/// Following receivers from `c` reaches a base cell.
pub open spec fn drains(rc: Seq<u32>, c: int) -> bool {
    exists|k: nat| #[trigger] drains_within(rc, c, k)
}

/// Distinct cells below `n`: at most `n` of them, exactly `n` when every
/// cell is present.
pub proof fn lemma_distinct_cells(s: Seq<u32>, n: int)
    requires
        0 <= n <= u32::MAX,
        forall|i: int| 0 <= i < s.len() ==> (#[trigger] s[i] as int) < n,
        forall|i: int, j: int| 0 <= i < j < s.len() ==> s[i] != s[j],
    ensures
        s.len() <= n,
        (forall|x: int| 0 <= x < n ==> #[trigger] s.contains(x as u32)) ==> s.len() == n,
{
    let t = s.map_values(|x: u32| x as int);
    assert(t.no_duplicates()) by {
        assert forall|i: int, j: int| 0 <= i < t.len() && 0 <= j < t.len() && i != j implies t[i]
            != t[j] by {
            if i < j {
                assert(s[i] != s[j]);
            } else {
                assert(s[j] != s[i]);
            }
        }
    }
    t.unique_seq_to_set();
    vstd::set_lib::lemma_int_range(0, n);
    let r = vstd::set_lib::set_int_range(0, n);
    assert(t.to_set().subset_of(r)) by {
        assert forall|x: int| t.to_set().contains(x) implies r.contains(x) by {
            let i = choose|i: int| 0 <= i < t.len() && t[i] == x;
            assert(s[i] as int == x);
        }
    }
    vstd::set_lib::lemma_len_subset(t.to_set(), r);
    if forall|x: int| 0 <= x < n ==> #[trigger] s.contains(x as u32) {
        assert(t.to_set() =~= r) by {
            assert forall|x: int| r.contains(x) implies t.to_set().contains(x) by {
                assert(s.contains(x as u32));
                let i = choose|i: int| 0 <= i < s.len() && s[i] == x as u32;
                assert(t[i] == x);
            }
        }
    }
}

/// On a forest (every cell drains to a base cell) a drainage order lists
/// every cell exactly once.
pub proof fn lemma_drainage_order_complete(rc: Seq<u32>, s: Seq<u32>)
    requires
        receivers_in_range(rc),
        rc.len() <= u32::MAX,
        is_drainage_order(rc, s),
        forall|c: int| 0 <= c < rc.len() ==> #[trigger] drains(rc, c),
    ensures
        s.len() == rc.len(),
        forall|c: int| 0 <= c < rc.len() ==> #[trigger] s.contains(c as u32),
{
    assert forall|c: int| 0 <= c < rc.len() implies #[trigger] s.contains(c as u32) by {
        assert(drains(rc, c));
        let k = choose|k: nat| #[trigger] drains_within(rc, c, k);
        lemma_drains_in_order(rc, s, c, k);
    }
    lemma_distinct_cells(s, rc.len() as int);
}

proof fn lemma_drains_in_order(rc: Seq<u32>, s: Seq<u32>, c: int, k: nat)
    requires
        receivers_in_range(rc),
        rc.len() <= u32::MAX,
        is_drainage_order(rc, s),
        0 <= c < rc.len(),
        drains_within(rc, c, k),
    ensures
        s.contains(c as u32),
    decreases k,
{
    if rc[c] as int != c {
        let r = rc[c] as int;
        lemma_drains_in_order(rc, s, r, (k - 1) as nat);
        assert(is_donor(rc, c, (r as u32) as int));
    }
}

/// The depth-first preorder below `c`, to depth `k`: `c`, then the
/// preorders of its donors from the last (largest) donor to the first.
pub open spec fn preorder(rc: Seq<u32>, c: int, k: nat) -> Seq<u32>
    decreases k, 0nat, 0nat,
{
    seq![c as u32] + if k == 0 {
        Seq::empty()
    } else {
        preorder_list(rc, donors_of(rc, c), (k - 1) as nat)
    }
}

/// The preorders of the cells of `ds`, from the last cell to the first.
pub open spec fn preorder_list(rc: Seq<u32>, ds: Seq<u32>, k: nat) -> Seq<u32>
    decreases k, 1nat, ds.len(),
{
    if ds.len() == 0 {
        Seq::empty()
    } else {
        preorder(rc, ds.last() as int, k) + preorder_list(rc, ds.drop_last(), k)
    }
}

/// The stack order over the cells `0..b`: each base cell in ascending
/// order, followed by its depth-first preorder.
pub open spec fn forest_preorder(rc: Seq<u32>, b: int) -> Seq<u32>
    decreases b,
{
    if b <= 0 {
        Seq::empty()
    } else if rc[b - 1] as int == b - 1 {
        forest_preorder(rc, b - 1) + preorder(rc, b - 1, rc.len())
    } else {
        forest_preorder(rc, b - 1)
    }
}

/// What the entries of a depth-first stack still emit, top entry first,
/// each to its remaining depth.
spec fn pending(rc: Seq<u32>, dfs: Seq<u32>, fuel: Seq<nat>) -> Seq<u32>
    decreases dfs.len(),
{
    if dfs.len() == 0 {
        Seq::empty()
    } else {
        preorder(rc, dfs.last() as int, fuel.last()) + pending(rc, dfs.drop_last(), fuel.drop_last())
    }
}

/// Pushing `ds`, each with depth `k`, puts their preorders, last first,
/// ahead of what was pending.
proof fn lemma_pending_push(rc: Seq<u32>, rest: Seq<u32>, fr: Seq<nat>, ds: Seq<u32>, k: nat)
    requires
        rest.len() == fr.len(),
    ensures
        pending(rc, rest + ds, fr + Seq::new(ds.len(), |i: int| k)) == preorder_list(rc, ds, k) + pending(rc, rest, fr),
    decreases ds.len(),
{
    let fs = Seq::new(ds.len(), |i: int| k);
    if ds.len() == 0 {
        assert(rest + ds =~= rest);
        assert(fr + fs =~= fr);
        assert(preorder_list(rc, ds, k) =~= Seq::empty());
    } else {
        let d2 = ds.drop_last();
        let fs2 = Seq::new(d2.len(), |i: int| k);
        lemma_pending_push(rc, rest, fr, d2, k);
        assert((rest + ds).drop_last() =~= rest + d2);
        assert((fr + fs).drop_last() =~= fr + fs2);
        assert((rest + ds).last() == ds.last());
        assert((fr + fs).last() == k);
        assert(preorder_list(rc, ds, k) + pending(rc, rest, fr) =~= preorder(rc, ds.last() as int, k) + (
        preorder_list(rc, d2, k) + pending(rc, rest, fr)));
    }
}

/// Braun & Willett (2013) stack: a topological order of the receiver
/// forest in which every cell appears after its receiver. Built by
/// iterative DFS from base cells in ascending index order.
pub fn build_stack(receivers: &[u32], donors: &DonorGraph) -> (stack: Vec<u32>)
    requires
        receivers_in_range(receivers@),
        receivers@.len() < u32::MAX,
        donors.represents(receivers@),
    ensures
        is_drainage_order(receivers@, stack@),
        stack@ == forest_preorder(receivers@, receivers@.len() as int),
{
    let ghost rc = receivers@;
    let n = receivers.len();
    let mut stack: Vec<u32> = Vec::new();
    let mut dfs: Vec<u32> = Vec::new();
    let ghost mut fuel: Seq<nat> = Seq::empty();
    let mut b: usize = 0;
    while b < n
        invariant
            n == rc.len(),
            n < u32::MAX,
            receivers@ == rc,
            receivers_in_range(rc),
            donors.represents(rc),
            b <= n,
            dfs@.len() == 0,
            stack@ == forest_preorder(rc, b as int),
            forall|i: int| 0 <= i < stack@.len() ==> (#[trigger] stack@[i] as int) < n,
            forall|i: int, j: int| 0 <= i < j < stack@.len() ==> stack@[i] != stack@[j],
            forall|i: int| 0 <= i < stack@.len() ==> #[trigger] receiver_before(rc, stack@, i),
            forall|r: int| 0 <= r < b && rc[r] as int == r ==> stack@.contains(r as u32),
            forall|i: int|
                0 <= i < stack@.len() && rc[stack@[i] as int] == stack@[i] ==> (stack@[i] as int)
                    < b,
            forall|x: u32, d: int|
                #![trigger stack@.contains(x), is_donor(rc, d, x as int)]
                stack@.contains(x) && 0 <= d < n && is_donor(rc, d, x as int) ==> stack@.contains(
                    d as u32,
                ),
        decreases n - b,
    {
        if receivers[b] as usize == b {
            proof {
                if stack@.contains(b as u32) {
                    let i = choose|i: int| 0 <= i < stack@.len() && stack@[i] == b as u32;
                    assert(rc[stack@[i] as int] == stack@[i]);
                }
            }
            dfs.push(b as u32);
            assert(dfs@[0] == b as u32);
            proof {
                fuel = seq![n as nat];
                assert(dfs@.drop_last() =~= Seq::<u32>::empty());
                assert(fuel.drop_last() =~= Seq::<nat>::empty());
                assert(pending(rc, Seq::<u32>::empty(), Seq::<nat>::empty()) =~= Seq::<u32>::empty());
                assert(pending(rc, dfs@, fuel) =~= preorder(rc, b as int, n as nat));
                assert(stack@ + pending(rc, dfs@, fuel) =~= forest_preorder(rc, b as int) + preorder(rc, b as int, n as nat));
            }
            while dfs.len() > 0
                invariant
                    n == rc.len(),
                    n < u32::MAX,
                    receivers@ == rc,
                    receivers_in_range(rc),
                    donors.represents(rc),
                    b < n,
                    rc[b as int] as int == b,
                    fuel.len() == dfs@.len(),
                    forall|j: int| 0 <= j < fuel.len() ==> #[trigger] fuel[j] + stack@.len() >= n,
                    stack@ + pending(rc, dfs@, fuel) == forest_preorder(rc, b as int) + preorder(rc, b as int, n as nat),
                    stack@.contains(b as u32) || dfs@.contains(b as u32),
                    forall|i: int| 0 <= i < stack@.len() ==> (#[trigger] stack@[i] as int) < n,
                    forall|i: int| 0 <= i < dfs@.len() ==> (#[trigger] dfs@[i] as int) < n,
                    forall|i: int, j: int| 0 <= i < j < stack@.len() ==> stack@[i] != stack@[j],
                    forall|i: int, j: int| 0 <= i < j < dfs@.len() ==> dfs@[i] != dfs@[j],
                    forall|i: int, j: int|
                        0 <= i < stack@.len() && 0 <= j < dfs@.len() ==> stack@[i] != dfs@[j],
                    forall|i: int| 0 <= i < stack@.len() ==> #[trigger] receiver_before(rc, stack@, i),
                    forall|j: int|
                        0 <= j < dfs@.len() ==> if rc[dfs@[j] as int] == dfs@[j] {
                            dfs@[j] as int == b
                        } else {
                            stack@.contains(rc[dfs@[j] as int])
                        },
                    forall|r: int| 0 <= r < b && rc[r] as int == r ==> stack@.contains(r as u32),
                    forall|i: int|
                        0 <= i < stack@.len() && rc[stack@[i] as int] == stack@[i] ==> (
                        stack@[i] as int) <= b,
                    forall|x: u32, d: int|
                        #![trigger stack@.contains(x), is_donor(rc, d, x as int)]
                        stack@.contains(x) && 0 <= d < n && is_donor(rc, d, x as int) ==> (
                        stack@.contains(d as u32) || dfs@.contains(d as u32)),
                decreases n - stack@.len(),
            {
                let ghost pre_dfs = dfs@;
                let ghost pre_fuel = fuel;
                let c = dfs.pop().unwrap();
                let ghost old_stack = stack@;
                let ghost rest = dfs@;
                proof {
                    assert(c == pre_dfs.last());
                    assert(forall|i: int| 0 <= i < old_stack.len() ==> old_stack[i] != c);
                }
                stack.push(c);
                proof {
                    assert forall|i: int| 0 <= i < stack@.len() implies #[trigger] receiver_before(
                        rc,
                        stack@,
                        i,
                    ) by {
                        if i < old_stack.len() {
                            assert(receiver_before(rc, old_stack, i));
                            assert(stack@.subrange(0, i) =~= old_stack.subrange(0, i));
                        } else {
                            assert(stack@.subrange(0, i) =~= old_stack);
                        }
                    }
                    lemma_distinct_cells(stack@, n as int);
                }
                let ds = donors.donors(c);
                let ghost dsv = ds@;
                proof {
                    lemma_donors_upto(rc, c as int, n as int);
                    assert(dsv == donors_of(rc, c as int));
                    // Donors of c are fresh: their receiver c was not yet in the stack.
                    assert forall|k: int, i: int|
                        0 <= k < dsv.len() && 0 <= i < stack@.len() implies dsv[k]
                        != stack@[i] by {
                        let d = dsv[k];
                        if d == stack@[i] {
                            assert(is_donor(rc, d as int, c as int));
                            if i < old_stack.len() {
                                assert(receiver_before(rc, old_stack, i));
                                assert(old_stack.subrange(0, i).contains(c));
                                let w = choose|w: int|
                                    0 <= w < old_stack.subrange(0, i).len()
                                        && old_stack.subrange(0, i)[w] == c;
                                assert(old_stack[w] == c);
                            }
                        }
                    }
                    assert forall|k: int, j: int|
                        0 <= k < dsv.len() && 0 <= j < rest.len() implies dsv[k] != rest[j] by {
                        let d = dsv[k];
                        if d == rest[j] {
                            assert(pre_dfs[j] == rest[j]);
                            assert(old_stack.contains(c));
                            let w = choose|w: int| 0 <= w < old_stack.len() && old_stack[w] == c;
                            assert(pre_dfs[pre_dfs.len() - 1] == c);
                        }
                    }
                }
                let mut k: usize = 0;
                while k < ds.len()
                    invariant
                        k <= ds@.len(),
                        ds@ == dsv,
                        dfs@ == rest + dsv.subrange(0, k as int),
                    decreases ds@.len() - k,
                {
                    dfs.push(ds[k]);
                    k = k + 1;
                    assert(dfs@ =~= rest + dsv.subrange(0, k as int));
                }
                proof {
                    assert(dsv.subrange(0, dsv.len() as int) =~= dsv);
                    let f = pre_fuel.last();
                    let frest = pre_fuel.drop_last();
                    assert(pre_dfs.drop_last() =~= rest);
                    assert(f + old_stack.len() >= n);
                    assert(stack@.len() <= n);
                    let k2: nat = (f - 1) as nat;
                    assert(preorder(rc, c as int, f) =~= seq![c] + preorder_list(rc, dsv, k2)) by {
                        if f == 0 {
                            assert(dsv.len() == 0);
                            assert(preorder_list(rc, dsv, k2) =~= Seq::<u32>::empty());
                        }
                    }
                    lemma_pending_push(rc, rest, frest, dsv, k2);
                    fuel = frest + Seq::new(dsv.len(), |i: int| k2);
                    assert(dfs@ =~= rest + dsv);
                    assert(stack@ + pending(rc, dfs@, fuel) =~= old_stack + pending(rc, pre_dfs, pre_fuel));
                    assert forall|j: int| 0 <= j < fuel.len() implies #[trigger] fuel[j] + stack@.len() >= n by {
                        if j < frest.len() {
                            assert(fuel[j] == pre_fuel[j]);
                        }
                    }
                    let nd = dfs@;
                    assert forall|i: int, j: int| 0 <= i < j < nd.len() implies nd[i] != nd[j] by {
                        if j < rest.len() {
                            assert(nd[i] == pre_dfs[i] && nd[j] == pre_dfs[j]);
                        } else if i < rest.len() {
                            assert(nd[j] == dsv[j - rest.len()]);
                        } else {
                            assert(nd[i] == dsv[i - rest.len()]);
                            assert(nd[j] == dsv[j - rest.len()]);
                        }
                    }
                    assert forall|j: int| 0 <= j < nd.len() implies (#[trigger] nd[j] as int) < n by {
                        if j >= rest.len() {
                            assert(nd[j] == dsv[j - rest.len()]);
                        } else {
                            assert(nd[j] == pre_dfs[j]);
                        }
                    }
                    assert forall|i: int, j: int|
                        0 <= i < stack@.len() && 0 <= j < nd.len() implies stack@[i] != nd[j] by {
                        if j >= rest.len() {
                            assert(nd[j] == dsv[j - rest.len()]);
                        } else {
                            assert(nd[j] == pre_dfs[j]);
                            if i == old_stack.len() {
                                assert(pre_dfs[pre_dfs.len() - 1] == c);
                            }
                        }
                    }
                    assert forall|j: int| 0 <= j < nd.len() implies if rc[nd[j] as int] == nd[j] {
                        nd[j] as int == b
                    } else {
                        stack@.contains(rc[nd[j] as int])
                    } by {
                        if j >= rest.len() {
                            assert(nd[j] == dsv[j - rest.len()]);
                            assert(stack@[old_stack.len() as int] == c);
                        } else {
                            assert(nd[j] == pre_dfs[j]);
                            if rc[nd[j] as int] != nd[j] {
                                let w = choose|w: int|
                                    0 <= w < old_stack.len() && old_stack[w] == rc[nd[j] as int];
                                assert(stack@[w] == old_stack[w]);
                            }
                        }
                    }
                    assert forall|x: u32, d: int|
                        #![trigger stack@.contains(x), is_donor(rc, d, x as int)]
                        stack@.contains(x) && 0 <= d < n && is_donor(rc, d, x as int) implies (
                        stack@.contains(d as u32) || nd.contains(d as u32)) by {
                        let i = choose|i: int| 0 <= i < stack@.len() && stack@[i] == x;
                        if i == old_stack.len() {
                            assert(x == c);
                            assert(dsv.contains(d as u32));
                            let w = choose|w: int| 0 <= w < dsv.len() && dsv[w] == d as u32;
                            assert(nd[rest.len() + w] == d as u32);
                        } else {
                            assert(old_stack[i] == x);
                            assert(old_stack.contains(x));
                            if !old_stack.contains(d as u32) {
                                assert(pre_dfs.contains(d as u32));
                                let w = choose|w: int|
                                    0 <= w < pre_dfs.len() && pre_dfs[w] == d as u32;
                                if w < rest.len() {
                                    assert(nd[w] == d as u32);
                                } else {
                                    assert(stack@[old_stack.len() as int] == d as u32);
                                }
                            } else {
                                let w = choose|w: int|
                                    0 <= w < old_stack.len() && old_stack[w] == d as u32;
                                assert(stack@[w] == d as u32);
                            }
                        }
                    }
                    assert forall|r: int| 0 <= r < b && rc[r] as int == r implies stack@.contains(
                        r as u32,
                    ) by {
                        let w = choose|w: int| 0 <= w < old_stack.len() && old_stack[w] == r as u32;
                        assert(stack@[w] == r as u32);
                    }
                    if old_stack.contains(b as u32) {
                        let w = choose|w: int| 0 <= w < old_stack.len() && old_stack[w] == b as u32;
                        assert(stack@[w] == b as u32);
                    } else if c != b as u32 {
                        let w = choose|w: int| 0 <= w < pre_dfs.len() && pre_dfs[w] == b as u32;
                        assert(w < rest.len());
                        assert(nd[w] == b as u32);
                    } else {
                        assert(stack@[old_stack.len() as int] == b as u32);
                    }
                }
            }
            proof {
                assert(pending(rc, dfs@, fuel) =~= Seq::<u32>::empty());
                assert(stack@ =~= forest_preorder(rc, b + 1));
            }
        }
        b = b + 1;
    }
    stack
}

/// Basin label = index of the base-level cell each cell drains to.
pub fn label_basins(receivers: &[u32], stack: &[u32]) -> (label: Vec<u32>)
    requires
        receivers_in_range(receivers@),
        is_drainage_order(receivers@, stack@),
    ensures
        label@.len() == receivers@.len(),
        forall|i: int|
            0 <= i < stack@.len() ==> {
                let c = #[trigger] stack@[i] as int;
                label@[c] == if receivers@[c] as int == c {
                    c as u32
                } else {
                    label@[receivers@[c] as int]
                }
            },
        forall|i: int|
            0 <= i < stack@.len() ==> receivers@[label@[#[trigger] stack@[i] as int] as int]
                == label@[stack@[i] as int],
        forall|c: int| 0 <= c < receivers@.len() && !stack@.contains(c as u32) ==> label@[c] == 0,
{
    let ghost rc = receivers@;
    let n = receivers.len();
    let mut label: Vec<u32> = Vec::new();
    let mut i: usize = 0;
    while i < n
        invariant
            i <= n,
            label@.len() == i,
            forall|j: int| 0 <= j < i ==> label@[j] == 0,
        decreases n - i,
    {
        label.push(0);
        i = i + 1;
    }
    let mut k: usize = 0;
    while k < stack.len()
        invariant
            n == rc.len(),
            receivers@ == rc,
            receivers_in_range(rc),
            is_drainage_order(rc, stack@),
            k <= stack@.len(),
            label@.len() == n,
            forall|i: int|
                0 <= i < k ==> {
                    let c = #[trigger] stack@[i] as int;
                    label@[c] == if rc[c] as int == c {
                        c as u32
                    } else {
                        label@[rc[c] as int]
                    }
                },
            forall|i: int| 0 <= i < k ==> rc[label@[#[trigger] stack@[i] as int] as int] == label@[stack@[i] as int],
            forall|c: int|
                0 <= c < n && !stack@.subrange(0, k as int).contains(c as u32) ==> label@[c] == 0,
        decreases stack@.len() - k,
    {
        let c = stack[k];
        let r = receivers[c as usize];
        let ghost old_label = label@;
        proof {
            assert(receiver_before(rc, stack@, k as int));
        }
        let v = if r == c {
            c
        } else {
            label[r as usize]
        };
        proof {
            if r != c {
                assert(stack@.subrange(0, k as int).contains(r));
                let w = choose|w: int| 0 <= w < k && stack@.subrange(0, k as int)[w] == r;
                assert(stack@[w] == r);
                assert(rc[label@[stack@[w] as int] as int] == label@[stack@[w] as int]);
            }
        }
        label.set(c as usize, v);
        proof {
            assert forall|i: int| 0 <= i < k + 1 implies {
                let x = #[trigger] stack@[i] as int;
                label@[x] == if rc[x] as int == x {
                    x as u32
                } else {
                    label@[rc[x] as int]
                }
            } by {
                if i < k {
                    let x = stack@[i] as int;
                    assert(stack@[i] != stack@[k as int]);
                    if rc[x] as int != x {
                        assert(receiver_before(rc, stack@, i));
                        let w = choose|w: int|
                            0 <= w < i && stack@.subrange(0, i)[w] == rc[x];
                        assert(stack@[w] != stack@[k as int]);
                    }
                }
            }
            assert forall|i: int| 0 <= i < k + 1 implies rc[label@[#[trigger] stack@[i] as int] as int]
                == label@[stack@[i] as int] by {
                if i < k {
                    assert(stack@[i] != stack@[k as int]);
                }
            }
            assert forall|x: int|
                0 <= x < n && !stack@.subrange(0, k + 1).contains(x as u32) implies label@[x]
                == 0 by {
                assert(stack@.subrange(0, k + 1)[k as int] == c);
                if stack@.subrange(0, k as int).contains(x as u32) {
                    let w = choose|w: int| 0 <= w < k && stack@.subrange(0, k as int)[w] == x as u32;
                    assert(stack@.subrange(0, k + 1)[w] == x as u32);
                }
            }
        }
        k = k + 1;
    }
    proof {
        assert(stack@.subrange(0, stack@.len() as int) =~= stack@);
    }
    label
}

} // verus!

verus! {

/// Sum of `v[x]` over `x` in `0..k` with `keep(x)`.
pub open spec fn sum_where(v: Seq<u64>, keep: spec_fn(int) -> bool, k: int) -> int
    decreases k,
{
    if k <= 0 {
        0
    } else {
        sum_where(v, keep, k - 1) + if keep(k - 1) {
            v[k - 1] as int
        } else {
            0
        }
    }
}

/// Cell `x` appears in `s` at a position `k` or later.
pub open spec fn processed(s: Seq<u32>, k: int, x: int) -> bool {
    s.subrange(k, s.len() as int).contains(x as u32)
}

proof fn lemma_sum_ext(v: Seq<u64>, a: spec_fn(int) -> bool, b: spec_fn(int) -> bool, k: int)
    requires
        forall|j: int| 0 <= j < k ==> #[trigger] a(j) == b(j),
    ensures
        sum_where(v, a, k) == sum_where(v, b, k),
    decreases k,
{
    if k > 0 {
        lemma_sum_ext(v, a, b, k - 1);
    }
}

proof fn lemma_sum_update(v: Seq<u64>, keep: spec_fn(int) -> bool, k: int, p: int, x: u64)
    requires
        0 <= p < v.len(),
        k <= v.len(),
    ensures
        sum_where(v.update(p, x), keep, k) == sum_where(v, keep, k) + if p < k && keep(p) {
            x - v[p]
        } else {
            0
        },
    decreases k,
{
    if k > 0 {
        lemma_sum_update(v, keep, k - 1, p, x);
    }
}

proof fn lemma_sum_add_point(
    v: Seq<u64>,
    a: spec_fn(int) -> bool,
    b: spec_fn(int) -> bool,
    k: int,
    c: int,
)
    requires
        0 <= c < k <= v.len(),
        b(c),
        !a(c),
        forall|j: int| 0 <= j < k && j != c ==> #[trigger] a(j) == b(j),
    ensures
        sum_where(v, b, k) == sum_where(v, a, k) + v[c],
    decreases k,
{
    if k - 1 != c {
        lemma_sum_add_point(v, a, b, k - 1, c);
    } else {
        lemma_sum_ext(v, a, b, k - 1);
    }
}

proof fn lemma_sum_two(v: Seq<u64>, keep: spec_fn(int) -> bool, k: int, p: int, q: int)
    requires
        0 <= p < k <= v.len(),
        0 <= q < k,
        p != q,
        keep(p),
        keep(q),
    ensures
        v[p] + v[q] <= sum_where(v, keep, k),
    decreases k,
{
    lemma_sum_nonneg(v, keep, k - 1);
    if k - 1 != p && k - 1 != q {
        lemma_sum_two(v, keep, k - 1, p, q);
    } else if k - 1 == p {
        lemma_sum_one(v, keep, k - 1, q);
    } else {
        lemma_sum_one(v, keep, k - 1, p);
    }
}

proof fn lemma_sum_one(v: Seq<u64>, keep: spec_fn(int) -> bool, k: int, p: int)
    requires
        0 <= p < k <= v.len(),
        keep(p),
    ensures
        v[p] <= sum_where(v, keep, k),
    decreases k,
{
    lemma_sum_nonneg(v, keep, k - 1);
    if k - 1 != p {
        lemma_sum_one(v, keep, k - 1, p);
    }
}

proof fn lemma_sum_nonneg(v: Seq<u64>, keep: spec_fn(int) -> bool, k: int)
    ensures
        0 <= sum_where(v, keep, k),
    decreases k,
{
    if k > 0 {
        lemma_sum_nonneg(v, keep, k - 1);
    }
}

proof fn lemma_sum_count(v: Seq<u64>, keep: spec_fn(int) -> bool, k: int)
    requires
        k <= v.len(),
        forall|j: int| 0 <= j < k ==> v[j] == 1,
    ensures
        sum_where(v, keep, k) == count_where(keep, k),
    decreases k,
{
    if k > 0 {
        lemma_sum_count(v, keep, k - 1);
    }
}

/// Number of `x` in `0..k` with `keep(x)`.
pub open spec fn count_where(keep: spec_fn(int) -> bool, k: int) -> nat
    decreases k,
{
    if k <= 0 {
        0
    } else {
        count_where(keep, k - 1) + if keep(k - 1) {
            1nat
        } else {
            0nat
        }
    }
}

/// Cells in the order `s` that are listed before position `k` are not
/// processed at `k`; processing position `k - 1` adds exactly `s[k - 1]`.
proof fn lemma_processed(s: Seq<u32>, k: int)
    requires
        0 < k <= s.len(),
        forall|i: int, j: int| 0 <= i < j < s.len() ==> s[i] != s[j],
    ensures
        forall|x: int|
            #![trigger processed(s, k - 1, x)]
            processed(s, k - 1, x) == (processed(s, k, x) || x as u32 == s[k - 1]),
        forall|j: int| 0 <= j < k - 1 ==> !processed(s, k - 1, #[trigger] s[j] as int),
{
    assert forall|x: int| #![trigger processed(s, k - 1, x)] processed(s, k - 1, x) == (processed(
        s,
        k,
        x,
    ) || x as u32 == s[k - 1]) by {
        let a = s.subrange(k - 1, s.len() as int);
        let b = s.subrange(k, s.len() as int);
        if processed(s, k - 1, x) {
            let w = choose|w: int| 0 <= w < a.len() && a[w] == x as u32;
            if w > 0 {
                assert(b[w - 1] == x as u32);
            }
        }
        if processed(s, k, x) {
            let w = choose|w: int| 0 <= w < b.len() && b[w] == x as u32;
            assert(a[w + 1] == x as u32);
        }
        if x as u32 == s[k - 1] {
            assert(a[0] == x as u32);
        }
    }
    assert forall|j: int| 0 <= j < k - 1 implies !processed(s, k - 1, #[trigger] s[j] as int) by {
        let a = s.subrange(k - 1, s.len() as int);
        if processed(s, k - 1, s[j] as int) {
            let w = choose|w: int| 0 <= w < a.len() && a[w] == s[j];
            assert(s[k - 1 + w] == s[j]);
        }
    }
}

/// Upslope cell counts (each cell contributes 1, including base cells):
/// every listed cell carries itself plus the areas of its donors, and the
/// base cells together carry every listed cell exactly once.
pub fn accumulate_area(receivers: &[u32], stack: &[u32]) -> (area: Vec<u64>)
    requires
        receivers_in_range(receivers@),
        receivers@.len() < u32::MAX,
        is_drainage_order(receivers@, stack@),
    ensures
        area@.len() == receivers@.len(),
        forall|c: int|
            0 <= c < receivers@.len() && #[trigger] stack@.contains(c as u32) ==> area@[c] == 1
                + sum_where(area@, |d: int| is_donor(receivers@, d, c), receivers@.len() as int),
        forall|c: int|
            0 <= c < receivers@.len() && !stack@.contains(c as u32) ==> area@[c] == 1,
        sum_where(area@, |x: int| receivers@[x] as int == x, receivers@.len() as int)
            == stack@.len(),
{
    let ghost rc = receivers@;
    let ghost s = stack@;
    let n = receivers.len();
    proof {
        lemma_distinct_cells(s, n as int);
    }
    let mut area: Vec<u64> = Vec::new();
    let mut i: usize = 0;
    while i < n
        invariant
            i <= n,
            area@.len() == i,
            forall|j: int| 0 <= j < i ==> area@[j] == 1,
        decreases n - i,
    {
        area.push(1);
        i = i + 1;
    }
    proof {
        let kept = |x: int| s.contains(x as u32) && !(processed(s, s.len() as int, x) && rc[x] as int != x);
        assert forall|x: int| 0 <= x < n implies !#[trigger] processed(s, s.len() as int, x) by {
            assert(s.subrange(s.len() as int, s.len() as int).len() == 0);
        }
        lemma_sum_count(area@, kept, n as int);
        lemma_sum_count(area@, |x: int| s.contains(x as u32), n as int);
        lemma_sum_ext(area@, kept, |x: int| s.contains(x as u32), n as int);
        lemma_count_members(s, n as int, n as int);
        assert forall|x: int| 0 <= x < n && #[trigger] s.contains(x as u32) implies area@[x] == 1
            + sum_where(area@, |d: int| is_donor(rc, d, x) && processed(s, s.len() as int, d), n as int) by {
            lemma_sum_count(area@, |d: int| is_donor(rc, d, x) && processed(s, s.len() as int, d), n as int);
            lemma_count_none(|d: int| is_donor(rc, d, x) && processed(s, s.len() as int, d), n as int);
        }
    }
    let mut k: usize = stack.len();
    while k > 0
        invariant
            n == rc.len(),
            n < u32::MAX,
            receivers@ == rc,
            stack@ == s,
            receivers_in_range(rc),
            is_drainage_order(rc, s),
            s.len() <= n,
            k <= s.len(),
            area@.len() == n,
            forall|x: int|
                0 <= x < n && #[trigger] s.contains(x as u32) ==> area@[x] == 1 + sum_where(
                    area@,
                    |d: int| is_donor(rc, d, x) && processed(s, k as int, d),
                    n as int,
                ),
            forall|x: int| 0 <= x < n && !s.contains(x as u32) ==> area@[x] == 1,
            sum_where(
                area@,
                |x: int| s.contains(x as u32) && !(processed(s, k as int, x) && rc[x] as int != x),
                n as int,
            ) == s.len(),
        decreases k,
    {
        k = k - 1;
        let c = stack[k];
        let r = receivers[c as usize];
        let ghost old_area = area@;
        let ghost kk = k as int;
        proof {
            lemma_processed(s, kk + 1);
            assert(s.contains(c));
        }
        if r != c {
            proof {
                assert(receiver_before(rc, s, kk));
                assert(s.subrange(0, kk).contains(r));
                let w = choose|w: int| 0 <= w < kk && s.subrange(0, kk)[w] == r;
                assert(s[w] == r);
                assert(!processed(s, kk, r as int));
                assert(s.contains(r));
                let kept = |x: int| s.contains(x as u32) && !(processed(s, kk + 1, x) && rc[x] as int != x);
                assert(!processed(s, kk + 1, c as int));
                lemma_sum_two(old_area, kept, n as int, r as int, c as int);
            }
            let v = area[r as usize] + area[c as usize];
            area.set(r as usize, v);
            proof {
                let new_area = area@;
                assert(new_area == old_area.update(r as int, v));
                // Equations of every listed cell.
                assert forall|x: int| 0 <= x < n && #[trigger] s.contains(x as u32) implies new_area[x]
                    == 1 + sum_where(
                    new_area,
                    |d: int| is_donor(rc, d, x) && processed(s, kk, d),
                    n as int,
                ) by {
                    let before = |d: int| is_donor(rc, d, x) && processed(s, kk + 1, d);
                    let after = |d: int| is_donor(rc, d, x) && processed(s, kk, d);
                    lemma_sum_update(old_area, after, n as int, r as int, v);
                    if x == r as int {
                        lemma_sum_add_point(old_area, before, after, n as int, c as int);
                    } else {
                        lemma_sum_ext(old_area, before, after, n as int);
                    }
                }
                let kept_b = |x: int| s.contains(x as u32) && !(processed(s, kk + 1, x) && rc[x] as int != x);
                let kept_a = |x: int| s.contains(x as u32) && !(processed(s, kk, x) && rc[x] as int != x);
                lemma_sum_update(old_area, kept_a, n as int, r as int, v);
                lemma_sum_add_point(old_area, kept_a, kept_b, n as int, c as int);
            }
        } else {
            proof {
                assert forall|x: int| 0 <= x < n && #[trigger] s.contains(x as u32) implies area@[x]
                    == 1 + sum_where(
                    area@,
                    |d: int| is_donor(rc, d, x) && processed(s, kk, d),
                    n as int,
                ) by {
                    lemma_sum_ext(
                        area@,
                        |d: int| is_donor(rc, d, x) && processed(s, kk + 1, d),
                        |d: int| is_donor(rc, d, x) && processed(s, kk, d),
                        n as int,
                    );
                }
                lemma_sum_ext(
                    area@,
                    |x: int| s.contains(x as u32) && !(processed(s, kk + 1, x) && rc[x] as int != x),
                    |x: int| s.contains(x as u32) && !(processed(s, kk, x) && rc[x] as int != x),
                    n as int,
                );
            }
        }
    }
    proof {
        assert forall|x: int| 0 <= x < n implies #[trigger] processed(s, 0, x) == s.contains(x as u32) by {
            assert(s.subrange(0, s.len() as int) =~= s);
        }
        assert forall|c: int| 0 <= c < n && #[trigger] s.contains(c as u32) implies area@[c] == 1
            + sum_where(area@, |d: int| is_donor(rc, d, c), n as int) by {
            assert forall|d: int| 0 <= d < n implies (is_donor(rc, d, c) && processed(s, 0, d))
                == is_donor(rc, d, c) by {
                if is_donor(rc, d, c) {
                    assert(s.contains(c as u32) && is_donor(rc, d, (c as u32) as int));
                    assert(processed(s, 0, d));
                }
            }
            lemma_sum_ext(
                area@,
                |d: int| is_donor(rc, d, c) && processed(s, 0, d),
                |d: int| is_donor(rc, d, c),
                n as int,
            );
        }
        assert forall|x: int| 0 <= x < n implies (s.contains(x as u32) && !(processed(s, 0, x)
            && rc[x] as int != x)) == (rc[x] as int == x) by {
            if rc[x] as int == x {
                assert(s.contains(x as u32));
            }
        }
        lemma_sum_ext(
            area@,
            |x: int| s.contains(x as u32) && !(processed(s, 0, x) && rc[x] as int != x),
            |x: int| rc[x] as int == x,
            n as int,
        );
    }
    area
}

proof fn lemma_count_none(keep: spec_fn(int) -> bool, k: int)
    requires
        forall|j: int| 0 <= j < k ==> !#[trigger] keep(j),
    ensures
        count_where(keep, k) == 0,
    decreases k,
{
    if k > 0 {
        lemma_count_none(keep, k - 1);
    }
}

/// Counting the members of a list of distinct cells below `n`.
proof fn lemma_count_members(s: Seq<u32>, n: int, k: int)
    requires
        0 <= k <= n <= u32::MAX,
        forall|i: int| 0 <= i < s.len() ==> (#[trigger] s[i] as int) < n,
        forall|i: int, j: int| 0 <= i < j < s.len() ==> s[i] != s[j],
    ensures
        count_where(|x: int| s.contains(x as u32), k) == count_below(s, k),
        k == n ==> count_below(s, k) == s.len(),
    decreases k,
{
    if k > 0 {
        lemma_count_members(s, n, k - 1);
        lemma_members_below_step(s, k - 1);
    } else {
        lemma_count_below_zero(s);
    }
    if k == n {
        lemma_count_below_all(s, n);
    }
}

proof fn lemma_count_below_zero(s: Seq<u32>)
    ensures
        count_below(s, 0) == 0,
    decreases s.len(),
{
    if s.len() > 0 {
        lemma_count_below_zero(s.drop_last());
    }
}

/// Number of entries of `s` below `k`.
pub open spec fn count_below(s: Seq<u32>, k: int) -> nat
    decreases s.len(),
{
    if s.len() == 0 {
        0
    } else {
        count_below(s.drop_last(), k) + if (s.last() as int) < k {
            1nat
        } else {
            0nat
        }
    }
}

proof fn lemma_members_below_step(s: Seq<u32>, k: int)
    requires
        0 <= k <= u32::MAX,
        forall|i: int, j: int| 0 <= i < j < s.len() ==> s[i] != s[j],
    ensures
        count_below(s, k + 1) == count_below(s, k) + if s.contains(k as u32) {
            1nat
        } else {
            0nat
        },
    decreases s.len(),
{
    if s.len() > 0 {
        let p = s.drop_last();
        lemma_members_below_step(p, k);
        if s.last() == k as u32 {
            assert(!p.contains(k as u32)) by {
                if p.contains(k as u32) {
                    let w = choose|w: int| 0 <= w < p.len() && p[w] == k as u32;
                    assert(s[w] == s[s.len() - 1]);
                }
            }
        } else {
            if s.contains(k as u32) {
                let w = choose|w: int| 0 <= w < s.len() && s[w] == k as u32;
                assert(p[w] == k as u32);
            }
            if p.contains(k as u32) {
                let w = choose|w: int| 0 <= w < p.len() && p[w] == k as u32;
                assert(s[w] == k as u32);
            }
        }
    } else {
        assert(!s.contains(k as u32));
    }
}

proof fn lemma_count_below_all(s: Seq<u32>, n: int)
    requires
        forall|i: int| 0 <= i < s.len() ==> (#[trigger] s[i] as int) < n,
    ensures
        count_below(s, n) == s.len(),
    decreases s.len(),
{
    if s.len() > 0 {
        lemma_count_below_all(s.drop_last(), n);
        assert(s.last() == s[s.len() - 1]);
    }
}

} // verus!

verus! {

/// Highest order among the cells `ds` (0 when there are none).
pub open spec fn max_order(order: Seq<u32>, ds: Seq<u32>) -> u32
    decreases ds.len(),
{
    if ds.len() == 0 {
        0
    } else {
        let m = max_order(order, ds.drop_last());
        let o = order[ds.last() as int];
        if o > m {
            o
        } else {
            m
        }
    }
}

/// How many of the cells `ds` carry order `m`.
pub open spec fn count_order(order: Seq<u32>, ds: Seq<u32>, m: u32) -> nat
    decreases ds.len(),
{
    if ds.len() == 0 {
        0
    } else {
        count_order(order, ds.drop_last(), m) + if order[ds.last() as int] == m {
            1nat
        } else {
            0nat
        }
    }
}

/// Strahler's rule at a cell whose donors are `ds`: 0 off the river
/// network; 1 at a source; otherwise the highest donor order, raised by
/// one where two or more donors carry it.
pub open spec fn strahler_rule(order: Seq<u32>, ds: Seq<u32>, river: bool) -> u32 {
    if !river {
        0
    } else {
        let m = max_order(order, ds);
        if m == 0 {
            1
        } else if count_order(order, ds, m) >= 2 {
            (m + 1) as u32
        } else {
            m
        }
    }
}

proof fn lemma_max_order_bound(order: Seq<u32>, ds: Seq<u32>, bound: u32)
    requires
        forall|i: int| 0 <= i < ds.len() ==> order[#[trigger] ds[i] as int] <= bound,
    ensures
        max_order(order, ds) <= bound,
        forall|i: int| 0 <= i < ds.len() ==> order[#[trigger] ds[i] as int] <= max_order(order, ds),
    decreases ds.len(),
{
    if ds.len() > 0 {
        let p = ds.drop_last();
        assert forall|i: int| 0 <= i < p.len() implies order[#[trigger] p[i] as int] <= bound by {
            assert(p[i] == ds[i]);
        }
        lemma_max_order_bound(order, p, bound);
        assert forall|i: int| 0 <= i < ds.len() implies order[#[trigger] ds[i] as int] <= max_order(
            order,
            ds,
        ) by {
            if i < p.len() {
                assert(p[i] == ds[i]);
            }
        }
    }
}

proof fn lemma_count_order_none(order: Seq<u32>, ds: Seq<u32>, m: u32)
    requires
        forall|i: int| 0 <= i < ds.len() ==> order[#[trigger] ds[i] as int] != m,
    ensures
        count_order(order, ds, m) == 0,
    decreases ds.len(),
{
    if ds.len() > 0 {
        let p = ds.drop_last();
        assert forall|i: int| 0 <= i < p.len() implies order[#[trigger] p[i] as int] != m by {
            assert(p[i] == ds[i]);
        }
        lemma_count_order_none(order, p, m);
    }
}

proof fn lemma_count_order_le(order: Seq<u32>, ds: Seq<u32>, m: u32)
    ensures
        count_order(order, ds, m) <= ds.len(),
    decreases ds.len(),
{
    if ds.len() > 0 {
        lemma_count_order_le(order, ds.drop_last(), m);
    }
}

proof fn lemma_max_order_attained(order: Seq<u32>, ds: Seq<u32>)
    requires
        ds.len() > 0,
    ensures
        exists|i: int| 0 <= i < ds.len() && order[#[trigger] ds[i] as int] == max_order(order, ds),
    decreases ds.len(),
{
    let p = ds.drop_last();
    let l = ds.len() - 1;
    assert(ds[l] == ds.last());
    if p.len() > 0 {
        lemma_max_order_attained(order, p);
        let i = choose|i: int| 0 <= i < p.len() && order[#[trigger] p[i] as int] == max_order(order, p);
        assert(ds[i] == p[i]);
        if order[ds.last() as int] > max_order(order, p) {
            assert(order[ds[l] as int] == max_order(order, ds));
        } else {
            assert(order[ds[i] as int] == max_order(order, ds));
        }
    } else {
        assert(max_order(order, p) == 0);
        assert(order[ds[l] as int] == max_order(order, ds));
    }
}

proof fn lemma_count_order_witness(order: Seq<u32>, ds: Seq<u32>, m: u32)
    ensures
        count_order(order, ds, m) >= 1 <==> exists|i: int| 0 <= i < ds.len() && order[#[trigger] ds[i] as int] == m,
        count_order(order, ds, m) >= 2 <==> exists|i: int, j: int|
            0 <= i < j < ds.len() && order[#[trigger] ds[i] as int] == m && order[#[trigger] ds[j] as int] == m,
    decreases ds.len(),
{
    if ds.len() > 0 {
        let p = ds.drop_last();
        let l = ds.len() - 1;
        assert(ds[l] == ds.last());
        lemma_count_order_witness(order, p, m);
        assert forall|i: int| 0 <= i < p.len() implies #[trigger] p[i] == ds[i] by {}
        if exists|i: int| 0 <= i < ds.len() && order[#[trigger] ds[i] as int] == m {
            let i = choose|i: int| 0 <= i < ds.len() && order[#[trigger] ds[i] as int] == m;
            if i < l {
                assert(order[p[i] as int] == m);
            }
        }
        if exists|i: int, j: int|
            0 <= i < j < ds.len() && order[#[trigger] ds[i] as int] == m && order[#[trigger] ds[j] as int] == m {
            let (i, j) = choose|i: int, j: int|
                0 <= i < j < ds.len() && order[#[trigger] ds[i] as int] == m && order[#[trigger] ds[j] as int] == m;
            assert(order[p[i] as int] == m);
            if j < l {
                assert(order[p[j] as int] == m);
            }
        }
        if count_order(order, p, m) >= 1 {
            let i = choose|i: int| 0 <= i < p.len() && order[#[trigger] p[i] as int] == m;
            assert(order[ds[i] as int] == m);
        }
        if count_order(order, p, m) >= 2 {
            let (i, j) = choose|i: int, j: int|
                0 <= i < j < p.len() && order[#[trigger] p[i] as int] == m && order[#[trigger] p[j] as int] == m;
            assert(order[ds[i] as int] == m && order[ds[j] as int] == m);
        }
        if count_order(order, p, m) >= 1 && order[ds.last() as int] == m {
            let i = choose|i: int| 0 <= i < p.len() && order[#[trigger] p[i] as int] == m;
            assert(order[ds[i] as int] == m && order[ds[l] as int] == m);
        }
    }
}

/// Strahler's law at one cell, stated over the donor cells themselves:
/// given an order that follows the rule at river cell `c`, a cell off
/// the river network has order 0; a river cell whose donors all have
/// order 0 is a source of order 1; and where the donors' highest order
/// is `m > 0`, the cell keeps `m` when only one donor carries it and
/// rises to `m + 1` when two or more do (so an unbranched river keeps
/// its order).
pub proof fn lemma_strahler_law(rc: Seq<u32>, order: Seq<u32>, river: bool, c: int, m: u32)
    requires
        rc.len() <= u32::MAX,
        order.len() == rc.len(),
        0 <= c < rc.len(),
        order[c] == strahler_rule(order, donors_of(rc, c), river),
    ensures
        !river ==> order[c] == 0,
        river && (forall|d: int| 0 <= d < rc.len() && #[trigger] is_donor(rc, d, c) ==> order[d] == 0)
            ==> order[c] == 1,
        river && m > 0 && (forall|d: int| 0 <= d < rc.len() && #[trigger] is_donor(rc, d, c) ==> order[d] <= m)
            && (exists|d: int| 0 <= d < rc.len() && #[trigger] is_donor(rc, d, c) && order[d] == m) && (forall|
            d1: int,
            d2: int,
        |
            0 <= d1 < rc.len() && 0 <= d2 < rc.len() && #[trigger] is_donor(rc, d1, c) && #[trigger] is_donor(
                rc,
                d2,
                c,
            ) && order[d1] == m && order[d2] == m ==> d1 == d2) ==> order[c] == m,
        river && 0 < m < u32::MAX && (forall|d: int|
            0 <= d < rc.len() && #[trigger] is_donor(rc, d, c) ==> order[d] <= m) && (exists|d1: int, d2: int|
            0 <= d1 < rc.len() && 0 <= d2 < rc.len() && d1 != d2 && #[trigger] is_donor(rc, d1, c)
                && #[trigger] is_donor(rc, d2, c) && order[d1] == m && order[d2] == m) ==> order[c] == m + 1,
{
    let ds = donors_of(rc, c);
    lemma_donors_upto(rc, c, rc.len() as int);
    lemma_max_order_bound(order, ds, u32::MAX);
    lemma_count_order_witness(order, ds, max_order(order, ds));
    if river {
        let mx = max_order(order, ds);
        if forall|d: int| 0 <= d < rc.len() && #[trigger] is_donor(rc, d, c) ==> order[d] == 0 {
            if ds.len() > 0 {
                lemma_max_order_attained(order, ds);
                let i = choose|i: int| 0 <= i < ds.len() && order[#[trigger] ds[i] as int] == mx;
                let d = ds[i] as int;
                assert(0 <= d < rc.len() && is_donor(rc, d, c));
            }
            assert(mx == 0);
        }
        if m > 0 && (forall|d: int| 0 <= d < rc.len() && #[trigger] is_donor(rc, d, c) ==> order[d] <= m)
            && (exists|d: int| 0 <= d < rc.len() && #[trigger] is_donor(rc, d, c) && order[d] == m) {
            let d = choose|d: int| 0 <= d < rc.len() && #[trigger] is_donor(rc, d, c) && order[d] == m;
            assert(ds.contains(d as u32));
            let k = choose|k: int| 0 <= k < ds.len() && ds[k] == d as u32;
            assert(order[ds[k] as int] <= mx);
            lemma_max_order_attained(order, ds);
            let i = choose|i: int| 0 <= i < ds.len() && order[#[trigger] ds[i] as int] == mx;
            let di = ds[i] as int;
            assert(is_donor(rc, di, c) && 0 <= di < rc.len());
            assert(mx == m);
            if count_order(order, ds, mx) >= 2 {
                let (a, b) = choose|a: int, b: int|
                    0 <= a < b < ds.len() && order[#[trigger] ds[a] as int] == mx && order[#[trigger] ds[b] as int] == mx;
                let da = ds[a] as int;
                let db = ds[b] as int;
                assert(is_donor(rc, da, c) && is_donor(rc, db, c) && da != db);
            }
            if exists|d1: int, d2: int|
                0 <= d1 < rc.len() && 0 <= d2 < rc.len() && d1 != d2 && #[trigger] is_donor(rc, d1, c)
                    && #[trigger] is_donor(rc, d2, c) && order[d1] == m && order[d2] == m {
                let (d1, d2) = choose|d1: int, d2: int|
                    0 <= d1 < rc.len() && 0 <= d2 < rc.len() && d1 != d2 && #[trigger] is_donor(rc, d1, c)
                        && #[trigger] is_donor(rc, d2, c) && order[d1] == m && order[d2] == m;
                assert(ds.contains(d1 as u32) && ds.contains(d2 as u32));
                let k1 = choose|k1: int| 0 <= k1 < ds.len() && ds[k1] == d1 as u32;
                let k2 = choose|k2: int| 0 <= k2 < ds.len() && ds[k2] == d2 as u32;
                if k1 < k2 {
                    assert(order[ds[k1] as int] == mx && order[ds[k2] as int] == mx);
                } else {
                    assert(order[ds[k2] as int] == mx && order[ds[k1] as int] == mx);
                }
            }
        }
    }
}

proof fn lemma_rule_frame(order: Seq<u32>, ds: Seq<u32>, p: int, v: u32)
    requires
        0 <= p < order.len(),
        p < u32::MAX,
        !ds.contains(p as u32),
        forall|i: int| 0 <= i < ds.len() ==> (#[trigger] ds[i] as int) < order.len(),
    ensures
        max_order(order.update(p, v), ds) == max_order(order, ds),
        forall|m: u32| count_order(order.update(p, v), ds, m) == #[trigger] count_order(order, ds, m),
    decreases ds.len(),
{
    if ds.len() > 0 {
        let q = ds.drop_last();
        assert(!q.contains(p as u32)) by {
            if q.contains(p as u32) {
                let w = choose|w: int| 0 <= w < q.len() && q[w] == p as u32;
                assert(ds[w] == p as u32);
            }
        }
        assert(ds.last() != p as u32) by {
            assert(ds[ds.len() - 1] == ds.last());
        }
        assert((ds.last() as int) < order.len()) by {
            assert(ds[ds.len() - 1] == ds.last());
        }
        assert forall|i: int| 0 <= i < q.len() implies (#[trigger] q[i] as int) < order.len() by {
            assert(q[i] == ds[i]);
        }
        lemma_rule_frame(order, q, p, v);
        assert(order.update(p, v)[ds.last() as int] == order[ds.last() as int]);
        assert forall|m: u32| count_order(order.update(p, v), ds, m) == #[trigger] count_order(
            order,
            ds,
            m,
        ) by {
            assert(count_order(order.update(p, v), q, m) == count_order(order, q, m));
        }
    }
}

/// Strahler stream order for river cells; 0 elsewhere. Processed in
/// reverse stack order so every donor is ordered before its receiver.
pub fn strahler_orders(
    receivers: &[u32],
    stack: &[u32],
    donors: &DonorGraph,
    is_river: &[bool],
) -> (order: Vec<u32>)
    requires
        receivers_in_range(receivers@),
        receivers@.len() < u32::MAX,
        is_drainage_order(receivers@, stack@),
        donors.represents(receivers@),
        is_river@.len() == receivers@.len(),
    ensures
        order@.len() == receivers@.len(),
        forall|c: int|
            0 <= c < receivers@.len() && #[trigger] stack@.contains(c as u32) ==> order@[c]
                == strahler_rule(order@, donors_of(receivers@, c), is_river@[c]),
        forall|c: int| 0 <= c < receivers@.len() && !stack@.contains(c as u32) ==> order@[c] == 0,
{
    let ghost rc = receivers@;
    let ghost s = stack@;
    let n = receivers.len();
    proof {
        lemma_distinct_cells(s, n as int);
    }
    let mut order: Vec<u32> = Vec::new();
    let mut i: usize = 0;
    while i < n
        invariant
            i <= n,
            order@.len() == i,
            forall|j: int| 0 <= j < i ==> order@[j] == 0,
        decreases n - i,
    {
        order.push(0);
        i = i + 1;
    }
    proof {
        assert forall|x: int| 0 <= x < n implies !#[trigger] processed(s, s.len() as int, x) by {
            assert(s.subrange(s.len() as int, s.len() as int).len() == 0);
        }
    }
    let mut k: usize = stack.len();
    while k > 0
        invariant
            n == rc.len(),
            n < u32::MAX,
            receivers@ == rc,
            stack@ == s,
            receivers_in_range(rc),
            is_drainage_order(rc, s),
            donors.represents(rc),
            is_river@.len() == n,
            s.len() <= n,
            k <= s.len(),
            order@.len() == n,
            forall|x: int|
                0 <= x < n && #[trigger] processed(s, k as int, x) ==> order@[x] == strahler_rule(
                    order@,
                    donors_of(rc, x),
                    is_river@[x],
                ),
            forall|x: int| 0 <= x < n && !#[trigger] processed(s, k as int, x) ==> order@[x] == 0,
            forall|x: int| 0 <= x < n ==> order@[x] <= s.len() - k,
        decreases k,
    {
        k = k - 1;
        let ghost kk = k as int;
        let c = stack[k];
        proof {
            lemma_processed(s, kk + 1);
            assert(s.contains(c));
        }
        let ds = donors.donors(c);
        let ghost dsv = ds@;
        proof {
            assert(dsv == donors_of(rc, c as int));
            lemma_donors_upto(rc, c as int, n as int);
            // Every donor of c is listed after c, hence already processed.
            assert forall|j: int| 0 <= j < dsv.len() implies #[trigger] processed(
                s,
                kk + 1,
                dsv[j] as int,
            ) by {
                let d = dsv[j] as int;
                assert(is_donor(rc, d, (c as u32) as int));
                assert(s.contains(d as u32));
                let w = choose|w: int| 0 <= w < s.len() && s[w] == d as u32;
                assert(receiver_before(rc, s, w));
                assert(s.subrange(0, w).contains(c));
                let u = choose|u: int| 0 <= u < w && s.subrange(0, w)[u] == c;
                assert(s[u] == c);
                if w <= kk {
                    assert(u < kk);
                    assert(s[u] != s[kk]);
                }
                assert(s.subrange(kk + 1, s.len() as int)[w - kk - 1] == d as u32);
            }
            assert forall|j: int| 0 <= j < dsv.len() implies order@[#[trigger] dsv[j] as int] <= s.len()
                - (kk + 1) by {
            }
            lemma_max_order_bound(order@, dsv, (s.len() - (kk + 1)) as u32);
        }
        let ghost bnd: u32 = (s.len() - (kk + 1)) as u32;
        assert(bnd == s.len() - (kk + 1));
        let mut max_o: u32 = 0;
        let mut n_max: u32 = 0;
        let mut j: usize = 0;
        while j < ds.len()
            invariant
                j <= ds@.len(),
                ds@ == dsv,
                dsv.len() <= n,
                kk + 1 <= s.len(),
                s.len() <= n,
                bnd == s.len() - (kk + 1),
                n < u32::MAX,
                max_o == max_order(order@, dsv.subrange(0, j as int)),
                n_max == if max_o == 0 {
                    0
                } else {
                    count_order(order@, dsv.subrange(0, j as int), max_o)
                },
                n_max <= j,
                max_o <= s.len() - (kk + 1),
                forall|i: int| 0 <= i < dsv.len() ==> order@[#[trigger] dsv[i] as int] <= s.len() - (kk + 1),
                forall|i: int| 0 <= i < dsv.len() ==> (#[trigger] dsv[i] as int) < n,
                order@.len() == n,
            decreases ds@.len() - j,
        {
            let d = ds[j];
            let o = order[d as usize];
            let ghost pre = dsv.subrange(0, j as int);
            let ghost cur = dsv.subrange(0, j + 1);
            proof {
                assert(cur.drop_last() =~= pre);
                assert(cur.last() == d);
                assert forall|i: int| 0 <= i < pre.len() implies order@[#[trigger] pre[i] as int]
                    <= s.len() - (kk + 1) by {
                    assert(pre[i] == dsv[i]);
                }
                lemma_max_order_bound(order@, pre, bnd);
            }
            if o != 0 {
                if o > max_o {
                    proof {
                        assert forall|i: int| 0 <= i < pre.len() implies order@[#[trigger] pre[i] as int]
                            != o by {
                        }
                        lemma_count_order_none(order@, pre, o);
                    }
                    max_o = o;
                    n_max = 1;
                } else if o == max_o {
                    n_max = n_max + 1;
                }
            } else {
                proof {
                    if max_o != 0 {
                        assert(count_order(order@, cur, max_o) == count_order(order@, pre, max_o));
                    }
                }
            }
            j = j + 1;
        }
        proof {
            assert(dsv.subrange(0, dsv.len() as int) =~= dsv);
        }
        let v: u32 = if !is_river[c as usize] {
            0
        } else if max_o == 0 {
            1
        } else if n_max >= 2 {
            max_o + 1
        } else {
            max_o
        };
        let ghost old_order = order@;
        order.set(c as usize, v);
        proof {
            if max_o != 0 {
                lemma_count_order_le(old_order, dsv, max_o);
            }
            assert(!dsv.contains(c)) by {
                if dsv.contains(c) {
                    let w = choose|w: int| 0 <= w < dsv.len() && dsv[w] == c;
                    assert(is_donor(rc, dsv[w] as int, c as int));
                }
            }
            lemma_rule_frame(old_order, dsv, c as int, v);
            assert forall|x: int| 0 <= x < n && #[trigger] processed(s, kk, x) implies order@[x]
                == strahler_rule(order@, donors_of(rc, x), is_river@[x]) by {
                if x != c as int {
                    assert(processed(s, kk + 1, x));
                    lemma_donors_upto(rc, x, n as int);
                    assert(!donors_of(rc, x).contains(c)) by {
                        if donors_of(rc, x).contains(c) {
                            let w = choose|w: int|
                                0 <= w < donors_of(rc, x).len() && donors_of(rc, x)[w] == c;
                            assert(is_donor(rc, c as int, x));
                            assert(receiver_before(rc, s, kk));
                            assert(s.subrange(0, kk).contains(x as u32));
                            let u = choose|u: int| 0 <= u < kk && s.subrange(0, kk)[u] == x as u32;
                            assert(s[u] == x as u32);
                            assert(!processed(s, kk, s[u] as int));
                        }
                    }
                    lemma_rule_frame(old_order, donors_of(rc, x), c as int, v);
                }
            }
        }
    }
    proof {
        assert forall|x: int| 0 <= x < n implies #[trigger] processed(s, 0, x) == s.contains(
            x as u32,
        ) by {
            assert(s.subrange(0, s.len() as int) =~= s);
        }
        assert forall|c: int|
            0 <= c < n && #[trigger] s.contains(c as u32) implies order@[c] == strahler_rule(
            order@,
            donors_of(rc, c),
            is_river@[c],
        ) by {
            assert(processed(s, 0, c));
        }
        assert forall|c: int| 0 <= c < n && !s.contains(c as u32) implies order@[c] == 0 by {
            assert(!processed(s, 0, c));
        }
    }
    order
}

/// Accumulation conserves mass: on a receiver forest (every cell drains
/// to a base cell), the base cells' upslope areas sum to the number of
/// cells.
pub proof fn lemma_mass_conserved(rc: Seq<u32>, stack: Seq<u32>, area: Seq<u64>)
    requires
        receivers_in_range(rc),
        rc.len() < u32::MAX,
        is_drainage_order(rc, stack),
        forall|c: int| 0 <= c < rc.len() ==> #[trigger] drains(rc, c),
        sum_where(area, |x: int| rc[x] as int == x, rc.len() as int) == stack.len(),
    ensures
        sum_where(area, |x: int| rc[x] as int == x, rc.len() as int) == rc.len(),
{
    lemma_drainage_order_complete(rc, stack);
}

} // verus!
