use vstd::prelude::*;
use std::collections::BTreeMap;
use crate::tally::{add_counts, all_at_most, all_positive, bump, map_count};
use vstd::std_specs::iter::IteratorSpec;
use vstd::std_specs::cmp::OrdSpec;

verus! {

broadcast use vstd::std_specs::btree::group_btree_axioms;

/// Number of count slots per reference position: A, C, G, T, deletion, insertion.
pub const COUNTS_N: usize = 6;

/// Slot of an aligned byte among A, C, G, T (either case) and deletion
/// (a space); other bytes have none.
pub open spec fn base_slot(c: u8) -> Option<nat> {
    if c == 'A' as u8 || c == 'a' as u8 {
        Some(0)
    } else if c == 'C' as u8 || c == 'c' as u8 {
        Some(1)
    } else if c == 'G' as u8 || c == 'g' as u8 {
        Some(2)
    } else if c == 'T' as u8 || c == 't' as u8 {
        Some(3)
    } else if c == 32 {
        Some(4)
    } else {
        None
    }
}

pub open spec fn is_lower(c: u8) -> bool {
    97 <= c <= 122
}

/// What one aligned read adds to slot `s` of position `i`: its base or
/// deletion slot, and the insertion slot when the byte is lower case.
pub open spec fn obs_inc(p: Seq<u8>, i: int, s: int) -> nat {
    if 0 <= i < p.len() {
        (if base_slot(p[i]) == Some(s as nat) {
            1nat
        } else {
            0nat
        }) + (if s == 5 && is_lower(p[i]) {
            1nat
        } else {
            0nat
        })
    } else {
        0
    }
}

/// Counts at one reference position, for A, C, G, T, deletion, insertion.
#[derive(Debug, Clone, Copy, Default)]
pub struct Counts {
    base_counts: [u64; COUNTS_N],
}

impl Counts {
    pub closed spec fn get(&self, s: int) -> nat {
        self.base_counts@[s] as nat
    }

    pub fn new() -> (r: Self)
        ensures
            forall|s: int| 0 <= s < 6 ==> r.get(s) == 0,
    {
        Counts { base_counts: [0u64; COUNTS_N] }
    }

    fn inc(&mut self, s: usize)
        requires
            s < 6,
            old(self).get(s as int) < u64::MAX,
        ensures
            forall|t: int|
                0 <= t < 6 ==> #[trigger] final(self).get(t) == old(self).get(t) + if t == s {
                    1nat
                } else {
                    0nat
                },
    {
        let v = self.base_counts[s] + 1;
        self.base_counts.set(s, v);
    }

    fn add(&mut self, o: &Counts)
        requires
            forall|t: int| 0 <= t < 6 ==> #[trigger] old(self).get(t) + o.get(t) <= u64::MAX,
        ensures
            forall|t: int| 0 <= t < 6 ==> #[trigger] final(self).get(t) == old(self).get(t) + o.get(t),
    {
        let ghost c0 = *self;
        let mut s: usize = 0;
        while s < COUNTS_N
            invariant
                s <= 6,
                forall|t: int| 0 <= t < 6 ==> #[trigger] c0.get(t) + o.get(t) <= u64::MAX,
                forall|t: int|
                    0 <= t < 6 ==> #[trigger] self.get(t) == c0.get(t) + if t < s {
                        o.get(t)
                    } else {
                        0
                    },
            decreases 6 - s,
        {
            assert(c0.get(s as int) + o.get(s as int) <= u64::MAX);
            assert(self.get(s as int) == c0.get(s as int));
            let v = self.base_counts[s] + o.base_counts[s];
            let ghost prev = *self;
            self.base_counts.set(s, v);
            assert forall|t: int|
                0 <= t < 6 implies #[trigger] self.get(t) == c0.get(t) + if t < s + 1 {
                    o.get(t)
                } else {
                    0
                } by {
                if t != s {
                    assert(self.get(t) == prev.get(t));
                }
            }
            s = s + 1;
        }
    }

    /// Bases and deletions counted: slots A, C, G, T and deletion.
    pub fn total(&self) -> (r: u128)
        ensures
            r == self.get(0) + self.get(1) + self.get(2) + self.get(3) + self.get(4),
    {
        self.base_counts[0] as u128 + self.base_counts[1] as u128 + self.base_counts[2] as u128
            + self.base_counts[3] as u128 + self.base_counts[4] as u128
    }

    /// Bases differing from the reference base `r`: the A, C, G and T counts
    /// other than that of `r`; none when `r` is not a base.
    pub fn mismatches(&self, r: u8) -> (m: u128)
        ensures
            m == (match base_slot(r) {
                Some(j) => if j < 4 {
                    (if j != 0 { self.get(0) } else { 0 }) + (if j != 1 { self.get(1) } else { 0 }) + (
                    if j != 2 { self.get(2) } else { 0 }) + (if j != 3 { self.get(3) } else { 0 })
                } else {
                    0
                },
                None => 0,
            }),
    {
        let j = slot_exec(r);
        if j >= 4 {
            return 0;
        }
        let mut m: u128 = 0;
        if j != 0 {
            m = m + self.base_counts[0] as u128;
        }
        if j != 1 {
            m = m + self.base_counts[1] as u128;
        }
        if j != 2 {
            m = m + self.base_counts[2] as u128;
        }
        if j != 3 {
            m = m + self.base_counts[3] as u128;
        }
        m
    }

    /// The count in slot `s`.
    pub fn count(&self, s: usize) -> (r: u64)
        requires
            s < 6,
        ensures
            r == self.get(s as int),
    {
        self.base_counts[s]
    }
}

/// Triangle number: how many pairs (i, j) with i <= j < n there are.
pub open spec fn triangle(n: nat) -> nat
    decreases n,
{
    if n == 0 {
        0
    } else {
        triangle((n - 1) as nat) + n
    }
}

/// Cell of the pair (i, j), i <= j, in the triangular layout of pairs.
pub open spec fn pair_cell(i: nat, j: nat) -> nat {
    triangle(j) + i
}

pub proof fn lemma_triangle_mono(a: nat, b: nat)
    requires
        a <= b,
    ensures
        triangle(a) <= triangle(b),
    decreases b - a,
{
    if a < b {
        lemma_triangle_mono(a, (b - 1) as nat);
    }
}

/// Pairs are laid out one row after another: (i, j) comes before (i2, j2)
/// when j < j2, or j == j2 and i < i2.
pub proof fn lemma_pair_cell_order(i: nat, j: nat, i2: nat, j2: nat)
    requires
        i <= j,
        i2 <= j2,
        j < j2 || (j == j2 && i < i2),
    ensures
        pair_cell(i, j) < pair_cell(i2, j2),
{
    if j < j2 {
        lemma_triangle_mono(j + 1, j2);
    }
}

pub proof fn lemma_triangle_closed(n: nat)
    ensures
        triangle(n) * 2 == n * (n + 1),
    decreases n,
{
    if n > 0 {
        let m = (n - 1) as nat;
        lemma_triangle_closed(m);
        assert(triangle(n) == triangle(m) + n);
        let t = triangle(m);
        assert((t + n) * 2 == n * (n + 1)) by (nonlinear_arith)
            requires
                t * 2 == m * (m + 1),
                m + 1 == n,
        ;
    } else {
        assert(triangle(0) == 0);
    }
}

/// Cell of the pair of positions `i` and `j`, in either order.
fn cell_index(i: usize, j: usize, n: usize) -> (r: usize)
    requires
        i < n,
        j < n,
        triangle(n as nat) <= usize::MAX,
    ensures
        i <= j ==> r == pair_cell(i as nat, j as nat),
        j < i ==> r == pair_cell(j as nat, i as nat),
        r < triangle(n as nat),
{
    let (a, b) = if i <= j { (i, j) } else { (j, i) };
    proof {
        lemma_triangle_closed(b as nat);
        lemma_pair_cell_bound(a as nat, b as nat, n as nat);
    }
    let t: u128 = (b as u128) * (b as u128 + 1) / 2;
    assert(t == triangle(b as nat));
    (t as usize) + a
}

pub proof fn lemma_pair_cell_bound(i: nat, j: nat, n: nat)
    requires
        i <= j < n,
    ensures
        pair_cell(i, j) < triangle(n),
{
    lemma_triangle_mono(j + 1, n);
}

/// Match (0) or mismatch (1) of an aligned byte against the reference byte;
/// none for a byte that is neither equal to the reference nor a base.
pub open spec fn mm_class(a: u8, r: u8) -> Option<nat> {
    if a == r {
        Some(0)
    } else if a == 'A' as u8 || a == 'C' as u8 || a == 'G' as u8 || a == 'T' as u8 || a
        == 'a' as u8 || a == 'c' as u8 || a == 'g' as u8 || a == 't' as u8 {
        Some(1)
    } else {
        None
    }
}

/// What one aligned read adds to entry `c` of the 2x2 table of positions
/// i <= j: entry 2 * class(i) + class(j) when both classes are defined.
pub open spec fn corr_inc(s: Seq<u8>, rf: Seq<u8>, i: int, j: int, c: int) -> nat {
    match (mm_class(s[i], rf[i]), mm_class(s[j], rf[j])) {
        (Some(x), Some(y)) => if c == 2 * x + y {
            1
        } else {
            0
        },
        _ => 0,
    }
}

fn mm_class_exec(a: u8, r: u8) -> (res: u8)
    ensures
        res < 3,
        mm_class(a, r) == Some(0nat) <==> res == 0,
        mm_class(a, r) == Some(1nat) <==> res == 1,
        mm_class(a, r) is None <==> res == 2,
{
    if a == r {
        0
    } else if a == 65 || a == 67 || a == 71 || a == 84 || a == 97 || a == 99 || a == 103 || a
        == 116 {
        1
    } else {
        2
    }
}

/// Entry `c` of the table of positions i <= j in a triangular layout.
pub open spec fn cell_at(v: Seq<[u64; 4]>, i: int, j: int, c: int) -> int {
    v[pair_cell(i as nat, j as nat) as int]@[c] as int
}

/// Mutation co-occurrence counts: for each pair of reference positions
/// i <= j, a 2x2 table over {match, mismatch} at i and at j.
pub struct MutCorr<'a> {
    cts: Vec<[u64; 4]>,
    rf: &'a [u8],
}

impl<'a> MutCorr<'a> {
    pub closed spec fn reference(&self) -> Seq<u8> {
        self.rf@
    }

    pub closed spec fn n_cells(&self) -> nat {
        self.cts@.len()
    }

    /// Entry `c` of the table of positions i <= j.
    pub closed spec fn at(&self, i: int, j: int, c: int) -> nat {
        self.cts@[pair_cell(i as nat, j as nat) as int]@[c] as nat
    }

    pub open spec fn wf(&self) -> bool {
        self.n_cells() == triangle(self.reference().len())
    }

    /// Every entry is at most `b`.
    pub open spec fn bounded_by(&self, b: nat) -> bool {
        forall|i: int, j: int, c: int|
            0 <= i <= j < self.reference().len() && 0 <= c < 4 ==> #[trigger] self.at(i, j, c)
                <= b
    }

    pub fn new(rf: &'a [u8]) -> (r: Self)
        requires
            triangle(rf@.len() as nat) <= usize::MAX,
        ensures
            r.wf(),
            r.reference() == rf@,
            forall|i: int, j: int, c: int|
                0 <= i <= j < rf@.len() && 0 <= c < 4 ==> #[trigger] r.at(i, j, c) == 0,
    {
        let n = rf.len();
        let mut cts: Vec<[u64; 4]> = Vec::new();
        let mut j: usize = 0;
        while j < n
            invariant
                j <= n,
                n == rf@.len(),
                triangle(n as nat) <= usize::MAX,
                cts@.len() == triangle(j as nat),
                forall|k: int, c: int| 0 <= k < cts@.len() && 0 <= c < 4 ==> #[trigger] cts@[k]@[c] == 0,
            decreases n - j,
        {
            proof {
                lemma_triangle_mono((j + 1) as nat, n as nat);
            }
            let mut i: usize = 0;
            while i <= j
                invariant
                    i <= j + 1,
                    j < n,
                    cts@.len() == triangle(j as nat) + i,
                    forall|k: int, c: int| 0 <= k < cts@.len() && 0 <= c < 4 ==> #[trigger] cts@[k]@[c] == 0,
                decreases j + 1 - i,
            {
                cts.push([0u64; 4]);
                i = i + 1;
            }
            j = j + 1;
        }
        let r = MutCorr { cts, rf };
        assert forall|i: int, j: int, c: int|
            0 <= i <= j < rf@.len() && 0 <= c < 4 implies #[trigger] r.at(i, j, c) == 0 by {
            lemma_pair_cell_bound(i as nat, j as nat, n as nat);
        }
        r
    }

    /// The 2x2 table of positions `i` and `j`, in either order: entries for
    /// (match, match), (match, mismatch), (mismatch, match), (mismatch,
    /// mismatch), the first class being that of the smaller position.
    pub fn table(&self, i: usize, j: usize) -> (r: [u64; 4])
        requires
            self.wf(),
            i < self.reference().len(),
            j < self.reference().len(),
        ensures
            forall|c: int|
                0 <= c < 4 ==> #[trigger] r@[c] == if i <= j {
                    self.at(i as int, j as int, c)
                } else {
                    self.at(j as int, i as int, c)
                },
    {
        let _total = self.cts.len();
        let k = cell_index(i, j, self.rf.len());
        self.cts[k]
    }

    /// Adds the tables of `rhs`, gathered over the same reference.
    pub fn merge(&mut self, rhs: &MutCorr)
        requires
            old(self).wf(),
            rhs.wf(),
            rhs.reference() == old(self).reference(),
            forall|i: int, j: int, c: int|
                0 <= i <= j < old(self).reference().len() && 0 <= c < 4 ==> #[trigger] old(self).at(i, j, c) + rhs.at(i, j, c) <= u64::MAX,
        ensures
            final(self).wf(),
            final(self).reference() == old(self).reference(),
            forall|i: int, j: int, c: int|
                0 <= i <= j < old(self).reference().len() && 0 <= c < 4 ==> #[trigger] final(self).at(i, j, c) == old(self).at(i, j, c) + rhs.at(i, j, c),
    {
        let n = self.rf.len();
        let ghost m0 = self.cts@;
        let ghost r0 = rhs.cts@;
        let ghost rf0 = self.rf@;
        let total = self.cts.len();
        assert forall|i2: int, j2: int, c: int|
            0 <= i2 <= j2 < n && 0 <= c < 4 implies #[trigger] cell_at(m0, i2, j2, c) + cell_at(
                r0,
                i2,
                j2,
                c,
            ) <= u64::MAX by {
            assert(old(self).at(i2, j2, c) + rhs.at(i2, j2, c) <= u64::MAX);
        }
        let mut k: usize = 0;
        let mut j: usize = 0;
        while j < n
            invariant
                j <= n,
                n == self.rf@.len(),
                rf0 == self.rf@,
                k == triangle(j as nat),
                self.cts@.len() == m0.len(),
                m0.len() == triangle(n as nat),
                r0 == rhs.cts@,
                r0.len() == m0.len(),
                total == m0.len(),
                forall|i2: int, j2: int, c: int|
                    0 <= i2 <= j2 < n && 0 <= c < 4 ==> #[trigger] cell_at(m0, i2, j2, c)
                        + cell_at(r0, i2, j2, c) <= u64::MAX,
                forall|i2: int, j2: int, c: int|
                    0 <= i2 <= j2 < n && 0 <= c < 4 ==> #[trigger] cell_at(self.cts@, i2, j2, c)
                        == cell_at(m0, i2, j2, c) + if j2 < j {
                        cell_at(r0, i2, j2, c)
                    } else {
                        0
                    },
            decreases n - j,
        {
            proof {
                lemma_triangle_mono((j + 1) as nat, n as nat);
            }
            let mut i: usize = 0;
            while i <= j
                invariant
                    i <= j + 1,
                    j < n,
                    n == self.rf@.len(),
                    rf0 == self.rf@,
                    k == triangle(j as nat) + i,
                    triangle(j as nat) + j + 1 <= triangle(n as nat),
                    self.cts@.len() == m0.len(),
                    m0.len() == triangle(n as nat),
                    r0 == rhs.cts@,
                    r0.len() == m0.len(),
                    total == m0.len(),
                    forall|i2: int, j2: int, c: int|
                        0 <= i2 <= j2 < n && 0 <= c < 4 ==> #[trigger] cell_at(m0, i2, j2, c)
                            + cell_at(r0, i2, j2, c) <= u64::MAX,
                    forall|i2: int, j2: int, c: int|
                        0 <= i2 <= j2 < n && 0 <= c < 4 ==> #[trigger] cell_at(self.cts@, i2, j2, c)
                            == cell_at(m0, i2, j2, c) + if j2 < j || (j2 == j && i2 < i) {
                            cell_at(r0, i2, j2, c)
                        } else {
                            0
                        },
                decreases j + 1 - i,
            {
                let ghost before = self.cts@;
                assert(pair_cell(i as nat, j as nat) == k);
                let ghost ii = i as int;
                let ghost jj = j as int;
                assert(forall|c: int|
                    0 <= c < 4 ==> #[trigger] cell_at(before, ii, jj, c) == cell_at(m0, ii, jj, c));
                assert(forall|c: int|
                    0 <= c < 4 ==> #[trigger] cell_at(m0, ii, jj, c) + cell_at(r0, ii, jj, c)
                        <= u64::MAX);
                assert(forall|c: int|
                    0 <= c < 4 ==> #[trigger] m0[k as int]@[c] + r0[k as int]@[c] <= u64::MAX) by {
                    assert forall|c: int| 0 <= c < 4 implies #[trigger] m0[k as int]@[c]
                        + r0[k as int]@[c] <= u64::MAX by {
                        assert(cell_at(m0, ii, jj, c) + cell_at(r0, ii, jj, c) <= u64::MAX);
                    }
                }
                assert(forall|c: int|
                    0 <= c < 4 ==> #[trigger] before[k as int]@[c] == m0[k as int]@[c]) by {
                    assert forall|c: int| 0 <= c < 4 implies #[trigger] before[k as int]@[c]
                        == m0[k as int]@[c] by {
                        assert(cell_at(before, ii, jj, c) == cell_at(m0, ii, jj, c));
                    }
                }
                let mut cell = self.cts[k];
                let add = rhs.cts[k];
                let mut c: usize = 0;
                while c < 4
                    invariant
                        c <= 4,
                        k < m0.len(),
                        add == r0[k as int],
                        forall|c2: int|
                            0 <= c2 < 4 ==> #[trigger] m0[k as int]@[c2] + r0[k as int]@[c2]
                                <= u64::MAX,
                        forall|c2: int|
                            0 <= c2 < 4 ==> #[trigger] cell@[c2] == m0[k as int]@[c2] + if c2
                                < c {
                                add@[c2] as int
                            } else {
                                0
                            },
                    decreases 4 - c,
                {
                    assert(m0[k as int]@[c as int] + r0[k as int]@[c as int] <= u64::MAX);
                    let v = cell[c] + add[c];
                    cell.set(c, v);
                    c = c + 1;
                }
                self.cts.set(k, cell);
                assert forall|i2: int, j2: int, c: int|
                    0 <= i2 <= j2 < n && 0 <= c < 4 implies #[trigger] cell_at(self.cts@, i2, j2, c)
                        == cell_at(m0, i2, j2, c) + if j2 < j || (j2 == j && i2 < i + 1) {
                        cell_at(r0, i2, j2, c)
                    } else {
                        0
                    } by {
                    if i2 == i && j2 == j {
                    } else {
                        if j2 < j || (j2 == j && i2 < i) {
                            lemma_pair_cell_order(i2 as nat, j2 as nat, i as nat, j as nat);
                        } else {
                            lemma_pair_cell_order(i as nat, j as nat, i2 as nat, j2 as nat);
                        }
                        lemma_pair_cell_bound(i2 as nat, j2 as nat, n as nat);
                        assert(cell_at(self.cts@, i2, j2, c) == cell_at(before, i2, j2, c));
                    }
                }
                k = k + 1;
                i = i + 1;
            }
            j = j + 1;
        }
        assert forall|i: int, j: int, c: int|
            0 <= i <= j < n && 0 <= c < 4 implies #[trigger] self.at(i, j, c) == old(self).at(
                i,
                j,
                c,
            ) + rhs.at(i, j, c) by {
            assert(cell_at(self.cts@, i, j, c) == cell_at(m0, i, j, c) + cell_at(r0, i, j, c));
        }
    }

    /// Adds one aligned read of the reference's length: for every pair of
    /// positions i <= j where both bytes are classed, entry
    /// 2 * class(i) + class(j) of their table goes up by one.
    pub fn add_obs(&mut self, s: &[u8])
        requires
            old(self).wf(),
            s@.len() == old(self).reference().len(),
            old(self).bounded_by((u64::MAX - 1) as nat),
        ensures
            final(self).wf(),
            final(self).reference() == old(self).reference(),
            forall|i: int, j: int, c: int|
                0 <= i <= j < s@.len() && 0 <= c < 4 ==> #[trigger] final(self).at(i, j, c)
                    == old(self).at(i, j, c) + corr_inc(s@, old(self).reference(), i, j, c),
    {
        let n = self.rf.len();
        let ghost rf = self.rf@;
        let ghost m0 = self.cts@;
        let mut cls: Vec<u8> = Vec::new();
        let mut t: usize = 0;
        while t < n
            invariant
                t <= n,
                n == s@.len(),
                n == rf.len(),
                rf == self.rf@,
                cls@.len() == t,
                forall|q: int|
                    0 <= q < t ==> {
                        &&& #[trigger] cls@[q] < 3
                        &&& (mm_class(s@[q], rf[q]) == Some(0nat) <==> cls@[q] == 0)
                        &&& (mm_class(s@[q], rf[q]) == Some(1nat) <==> cls@[q] == 1)
                        &&& (mm_class(s@[q], rf[q]) is None <==> cls@[q] == 2)
                    },
            decreases n - t,
        {
            let c = mm_class_exec(s[t], self.rf[t]);
            cls.push(c);
            t = t + 1;
        }
        assert forall|i2: int, j2: int, c: int|
            0 <= i2 <= j2 < n && 0 <= c < 4 implies #[trigger] cell_at(m0, i2, j2, c) <= u64::MAX - 1 by {
            assert(old(self).at(i2, j2, c) <= u64::MAX - 1);
            assert(cell_at(m0, i2, j2, c) == old(self).at(i2, j2, c));
        }
        let total = self.cts.len();
        let mut k: usize = 0;
        let mut j: usize = 0;
        while j < n
            invariant
                j <= n,
                n == s@.len(),
                n == rf.len(),
                rf == self.rf@,
                cls@.len() == n,
                forall|q: int|
                    0 <= q < n ==> {
                        &&& #[trigger] cls@[q] < 3
                        &&& (mm_class(s@[q], rf[q]) == Some(0nat) <==> cls@[q] == 0)
                        &&& (mm_class(s@[q], rf[q]) == Some(1nat) <==> cls@[q] == 1)
                        &&& (mm_class(s@[q], rf[q]) is None <==> cls@[q] == 2)
                    },
                k == triangle(j as nat),
                self.cts@.len() == m0.len(),
                m0.len() == triangle(n as nat),
                total == m0.len(),
                forall|i2: int, j2: int, c: int|
                    0 <= i2 <= j2 < n && 0 <= c < 4 ==> #[trigger] cell_at(m0, i2, j2, c) <= u64::MAX - 1,
                forall|i2: int, j2: int, c: int|
                    0 <= i2 <= j2 < n && 0 <= c < 4 ==> #[trigger] cell_at(self.cts@, i2, j2, c) == cell_at(m0, i2, j2, c) + if j2 < j {
                        corr_inc(s@, rf, i2, j2, c)
                    } else {
                        0
                    },
            decreases n - j,
        {
            proof {
                lemma_triangle_mono((j + 1) as nat, n as nat);
            }
            let cj = cls[j];
            let mut i: usize = 0;
            while i <= j
                invariant
                    i <= j + 1,
                    j < n,
                    n == s@.len(),
                    n == rf.len(),
                    cls@.len() == n,
                    forall|q: int|
                        0 <= q < n ==> {
                            &&& #[trigger] cls@[q] < 3
                            &&& (mm_class(s@[q], rf[q]) == Some(0nat) <==> cls@[q] == 0)
                            &&& (mm_class(s@[q], rf[q]) == Some(1nat) <==> cls@[q] == 1)
                            &&& (mm_class(s@[q], rf[q]) is None <==> cls@[q] == 2)
                        },
                    cj == cls@[j as int],
                    rf == self.rf@,
                    k == triangle(j as nat) + i,
                    triangle(j as nat) + j + 1 <= triangle(n as nat),
                    self.cts@.len() == m0.len(),
                    m0.len() == triangle(n as nat),
                    total == m0.len(),
                    forall|i2: int, j2: int, c: int|
                        0 <= i2 <= j2 < n && 0 <= c < 4 ==> #[trigger] cell_at(m0, i2, j2, c) <= u64::MAX - 1,
                    forall|i2: int, j2: int, c: int|
                        0 <= i2 <= j2 < n && 0 <= c < 4 ==> #[trigger] cell_at(self.cts@, i2, j2, c) == cell_at(m0, i2, j2, c) + if j2
                            < j || (j2 == j && i2 < i) {
                            corr_inc(s@, rf, i2, j2, c)
                        } else {
                            0
                        },
                decreases j + 1 - i,
            {
                let ci = cls[i];
                let ghost before = self.cts@;
                assert(pair_cell(i as nat, j as nat) == k);
                if ci < 2 && cj < 2 {
                    let idx: usize = (2 * ci + cj) as usize;
                    let mut cell = self.cts[k];
                    assert(cell_at(self.cts@, i as int, j as int, idx as int) == cell_at(
                        m0,
                        i as int,
                        j as int,
                        idx as int,
                    ));
                    let v = cell[idx] + 1;
                    cell.set(idx, v);
                    self.cts.set(k, cell);
                }
                assert(cls@[i as int] == ci);
                assert(cls@[j as int] == cj);
                assert forall|i2: int, j2: int, c: int|
                    0 <= i2 <= j2 < n && 0 <= c < 4 implies #[trigger] cell_at(self.cts@, i2, j2, c) == cell_at(m0, i2, j2, c) + if j2 < j
                        || (j2 == j && i2 < i + 1) {
                        corr_inc(s@, rf, i2, j2, c)
                    } else {
                        0
                    } by {
                    if i2 == i && j2 == j {
                        assert(cell_at(before, i2, j2, c) == cell_at(m0, i2, j2, c));
                        assert(pair_cell(i2 as nat, j2 as nat) == k);
                        if ci < 2 && cj < 2 {
                            assert(mm_class(s@[i2], rf[i2]) == Some(ci as nat));
                            assert(mm_class(s@[j2], rf[j2]) == Some(cj as nat));
                        } else {
                            assert(self.cts@ == before);
                            assert(corr_inc(s@, rf, i2, j2, c) == 0);
                        }
                    } else {
                        if j2 < j || (j2 == j && i2 < i) {
                            lemma_pair_cell_order(i2 as nat, j2 as nat, i as nat, j as nat);
                        } else {
                            lemma_pair_cell_order(i as nat, j as nat, i2 as nat, j2 as nat);
                        }
                        lemma_pair_cell_bound(i2 as nat, j2 as nat, n as nat);
                        assert(pair_cell(i2 as nat, j2 as nat) != k);
                        assert(cell_at(self.cts@, i2, j2, c) == cell_at(before, i2, j2, c));
                    }
                }
                k = k + 1;
                i = i + 1;
            }
            j = j + 1;
        }
        assert forall|i: int, j: int, c: int|
            0 <= i <= j < s@.len() && 0 <= c < 4 implies #[trigger] self.at(i, j, c) == old(self).at(i, j, c) + corr_inc(s@, old(self).reference(), i, j, c) by {
            assert(cell_at(self.cts@, i, j, c) == cell_at(m0, i, j, c) + corr_inc(s@, rf, i, j, c));
        }
    }
}

fn slot_exec(c: u8) -> (r: u8)
    ensures
        r <= 6,
        base_slot(c) is None <==> r == 6,
        base_slot(c) is Some ==> base_slot(c) == Some(r as nat),
{
    if c == 65 || c == 97 {
        0
    } else if c == 67 || c == 99 {
        1
    } else if c == 71 || c == 103 {
        2
    } else if c == 84 || c == 116 {
        3
    } else if c == 32 {
        4
    } else {
        6
    }
}

pub open spec fn pos_at(v: Seq<Counts>, i: int, s: int) -> nat {
    v[i].get(s)
}

/// Histogram of consensus (insert) lengths.
pub struct InsertLength {
    hash: BTreeMap<u32, u64>,
}

impl InsertLength {
    /// How many pairs had a consensus of length `x`.
    pub closed spec fn count(&self, x: u32) -> nat {
        map_count(self.hash@, x)
    }

    pub closed spec fn wf(&self) -> bool {
        all_positive(self.hash@)
    }

    pub closed spec fn bounded_by(&self, b: nat) -> bool {
        all_at_most(self.hash@, b)
    }

    pub fn new() -> (r: Self)
        ensures
            r.wf(),
            forall|x: u32| r.count(x) == 0,
            forall|b: nat| r.bounded_by(b),
    {
        InsertLength { hash: BTreeMap::new() }
    }

    /// Counts one more pair of consensus length `x`.
    pub fn add_len(&mut self, x: u32)
        requires
            old(self).wf(),
            old(self).count(x) < u64::MAX,
        ensures
            final(self).wf(),
            forall|y: u32| #[trigger]
                final(self).count(y) == old(self).count(y) + if y == x {
                    1nat
                } else {
                    0nat
                },
            forall|b: nat| old(self).bounded_by(b) && old(self).count(x) < b ==> final(self).bounded_by(b),
    {
        bump(&mut self.hash, x);
    }

    /// Adds the counts of `rhs`.
    pub fn merge(&mut self, rhs: &InsertLength)
        requires
            old(self).wf(),
            rhs.wf(),
            forall|x: u32| #[trigger] old(self).count(x) + rhs.count(x) <= u64::MAX,
        ensures
            final(self).wf(),
            forall|x: u32| #[trigger] final(self).count(x) == old(self).count(x) + rhs.count(x),
    {
        assert forall|x: u32| #[trigger] map_count(self.hash@, x) + map_count(rhs.hash@, x) <= u64::MAX by {
            assert(old(self).count(x) + rhs.count(x) <= u64::MAX);
        }
        add_counts(&mut self.hash, &rhs.hash);
    }
}

/// Statistics gathered over aligned read pairs: per-position counts,
/// consensus-length histogram, deletion runs and mutation co-occurrence.
pub struct Stats<'a> {
    pos_counts: Vec<Counts>,
    insert_len: InsertLength,
    mut_corr: MutCorr<'a>,
    del_hash: BTreeMap<(usize, usize), u64>,
    n_reads: u64,
    n_updates: u64,
}

/// `b` is `a` with one aligned read `p` added by `Stats::add_obs`.
pub open spec fn obs_step(a: Stats, b: Stats, p: Seq<u8>) -> bool {
    let n = a.reference().len();
    &&& b.reference() == a.reference()
    &&& b.reads() == a.reads() + 1
    &&& forall|i: int, s: int|
        0 <= i < n && 0 <= s < 6 ==> #[trigger] b.pos(i, s) == a.pos(i, s) + obs_inc(p, i, s)
    &&& forall|x: u32| #[trigger] b.ins(x) == a.ins(x)
    &&& forall|x: usize, y: usize| #[trigger] b.del(x, y) == a.del(x, y)
    &&& forall|i: int, j: int, c: int|
        0 <= i <= j < n && 0 <= c < 4 ==> #[trigger] b.corr(i, j, c) == a.corr(i, j, c) + if p.len()
            == n {
            corr_inc(p, a.reference(), i, j, c)
        } else {
            0
        }
}

/// `r` holds the counts of `a` and `b` added together.
pub open spec fn merged(a: Stats, b: Stats, r: Stats) -> bool {
    let n = a.reference().len();
    &&& b.reference() == a.reference()
    &&& r.reference() == a.reference()
    &&& r.reads() == a.reads() + b.reads()
    &&& forall|i: int, s: int|
        0 <= i < n && 0 <= s < 6 ==> #[trigger] r.pos(i, s) == a.pos(i, s) + b.pos(i, s)
    &&& forall|x: u32| #[trigger] r.ins(x) == a.ins(x) + b.ins(x)
    &&& forall|x: usize, y: usize| #[trigger] r.del(x, y) == a.del(x, y) + b.del(x, y)
    &&& forall|i: int, j: int, c: int|
        0 <= i <= j < n && 0 <= c < 4 ==> #[trigger] r.corr(i, j, c) == a.corr(i, j, c) + b.corr(
            i,
            j,
            c,
        )
}

/// Entry `c` of the 2x2 table of positions `i` and `j`, in either order.
pub open spec fn corr_entry(s: Stats, i: int, j: int, c: int) -> nat {
    if i <= j {
        s.corr(i, j, c)
    } else {
        s.corr(j, i, c)
    }
}

/// Deletion co-occurrence of 0-based positions `x` and `y`: runs from
/// x + 1 to y + 1, and, off the diagonal, from y + 1 to x + 1.
pub open spec fn del_cm(s: Stats, x: int, y: int) -> nat {
    let a = s.del((x + 1) as usize, (y + 1) as usize);
    if x != y {
        a + s.del((y + 1) as usize, (x + 1) as usize)
    } else {
        a
    }
}

/// The contact map is symmetric: the deletion co-occurrence and the 2x2
/// table, from which the mismatch share and the phi coefficient are
/// computed, are the same for (x, y) and (y, x).
pub proof fn lemma_contact_map_symmetric(s: Stats, x: int, y: int)
    ensures
        del_cm(s, x, y) == del_cm(s, y, x),
        forall|c: int| #[trigger] corr_entry(s, x, y, c) == corr_entry(s, y, x, c),
{
}

/// Whether deletion row `a` (start, stop, count) may come before row `b`:
/// higher count first, then shorter span.
pub open spec fn del_row_before(a: (usize, usize, u64), b: (usize, usize, u64)) -> bool {
    a.2 > b.2 || (a.2 == b.2 && a.1 - a.0 <= b.1 - b.0)
}

pub open spec fn row_key(a: (usize, usize, u64)) -> (usize, usize) {
    (a.0, a.1)
}

pub open spec fn del_row_strictly_before(a: (usize, usize, u64), b: (usize, usize, u64)) -> bool {
    a.2 > b.2 || (a.2 == b.2 && a.1 - a.0 < b.1 - b.0)
}

/// Rows in table order.
pub open spec fn rows_sorted(r: Seq<(usize, usize, u64)>) -> bool {
    forall|t1: int, t2: int| 0 <= t1 < t2 < r.len() ==> #[trigger] del_row_before(r[t1], r[t2])
}

/// No two rows for the same deletion run.
pub open spec fn keys_distinct(r: Seq<(usize, usize, u64)>) -> bool {
    forall|t1: int, t2: int|
        0 <= t1 < t2 < r.len() ==> #[trigger] row_key(r[t1]) != #[trigger] row_key(r[t2])
}

/// Inserts `e` into the sorted rows `r` after every row it does not come
/// strictly before; returns where it went.
fn insert_sorted(r: &mut Vec<(usize, usize, u64)>, e: (usize, usize, u64)) -> (p: usize)
    requires
        rows_sorted(old(r)@),
        keys_distinct(old(r)@),
        forall|t: int| 0 <= t < old(r)@.len() ==> #[trigger] row_key(old(r)@[t]) != row_key(e),
    ensures
        p <= old(r)@.len(),
        final(r)@ == old(r)@.insert(p as int, e),
        rows_sorted(final(r)@),
        keys_distinct(final(r)@),
{
    let mut p: usize = 0;
    while p < r.len() && !strictly_before(e, r[p])
        invariant
            p <= r@.len(),
            forall|t: int| 0 <= t < p ==> !del_row_strictly_before(e, #[trigger] r@[t]),
        decreases r@.len() - p,
    {
        p = p + 1;
    }
    let ghost r0 = r@;
    r.insert(p, e);
    proof {
        r0.insert_ensures(p as int, e);
        assert forall|t1: int, t2: int| 0 <= t1 < t2 < r@.len() implies #[trigger] del_row_before(
            r@[t1],
            r@[t2],
        ) by {
            if t2 < p {
            } else if t2 == p {
                assert(!del_row_strictly_before(e, r0[t1]));
            } else if t1 < p {
                assert(r@[t2] == r0[t2 - 1]);
            } else if t1 == p {
                assert(r@[t2] == r0[t2 - 1]);
                assert(del_row_strictly_before(e, r0[p as int]));
                if t2 - 1 > p {
                    assert(del_row_before(r0[p as int], r0[t2 - 1]));
                }
            } else {
                assert(r@[t1] == r0[t1 - 1]);
                assert(r@[t2] == r0[t2 - 1]);
            }
        }
        assert forall|t1: int, t2: int| 0 <= t1 < t2 < r@.len() implies #[trigger] row_key(r@[t1])
            != #[trigger] row_key(r@[t2]) by {
            if t2 < p {
            } else if t2 == p {
            } else if t1 < p {
                assert(r@[t2] == r0[t2 - 1]);
            } else if t1 == p {
                assert(r@[t2] == r0[t2 - 1]);
            } else {
                assert(r@[t1] == r0[t1 - 1]);
                assert(r@[t2] == r0[t2 - 1]);
            }
        }
    }
    p
}

fn strictly_before(a: (usize, usize, u64), b: (usize, usize, u64)) -> (r: bool)
    ensures
        r == del_row_strictly_before(a, b),
{
    a.2 > b.2 || (a.2 == b.2 && (a.1 as i128 - a.0 as i128) < (b.1 as i128 - b.0 as i128))
}

/// `b` differs from `a` at most in its consensus-length histogram.
pub open spec fn same_except_lengths(a: Stats, b: Stats) -> bool {
    let n = a.reference().len();
    &&& b.reference() == a.reference()
    &&& b.reads() == a.reads()
    &&& forall|i: int, s: int| 0 <= i < n && 0 <= s < 6 ==> #[trigger] b.pos(i, s) == a.pos(i, s)
    &&& forall|x: usize, y: usize| #[trigger] b.del(x, y) == a.del(x, y)
    &&& forall|i: int, j: int, c: int|
        0 <= i <= j < n && 0 <= c < 4 ==> #[trigger] b.corr(i, j, c) == a.corr(i, j, c)
}

/// `a` and `b` hold the same counts, so every table drawn from them is the same.
pub open spec fn same_counts(a: Stats, b: Stats) -> bool {
    let n = a.reference().len();
    &&& b.reference() == a.reference()
    &&& b.reads() == a.reads()
    &&& forall|i: int, s: int| 0 <= i < n && 0 <= s < 6 ==> #[trigger] b.pos(i, s) == a.pos(i, s)
    &&& forall|x: u32| #[trigger] b.ins(x) == a.ins(x)
    &&& forall|x: usize, y: usize| #[trigger] b.del(x, y) == a.del(x, y)
    &&& forall|i: int, j: int, c: int|
        0 <= i <= j < n && 0 <= c < 4 ==> #[trigger] b.corr(i, j, c) == a.corr(i, j, c)
}

/// Merging is commutative: `a` merged with `b` holds the same counts as `b`
/// merged with `a`.
pub proof fn lemma_merge_commutative(a: Stats, b: Stats, ab: Stats, ba: Stats)
    requires
        merged(a, b, ab),
        merged(b, a, ba),
    ensures
        same_counts(ab, ba),
{
}

/// Merging is associative: (a + b) + c holds the same counts as a + (b + c),
/// so worker statistics can be combined in any grouping.
pub proof fn lemma_merge_associative(
    a: Stats,
    b: Stats,
    c: Stats,
    ab: Stats,
    ab_c: Stats,
    bc: Stats,
    a_bc: Stats,
)
    requires
        merged(a, b, ab),
        merged(ab, c, ab_c),
        merged(b, c, bc),
        merged(a, bc, a_bc),
    ensures
        same_counts(ab_c, a_bc),
{
}

impl<'a> Stats<'a> {
    pub closed spec fn reference(&self) -> Seq<u8> {
        self.mut_corr.reference()
    }

    /// Slot `s` (A, C, G, T, deletion, insertion) at reference position `i`.
    pub closed spec fn pos(&self, i: int, s: int) -> nat {
        pos_at(self.pos_counts@, i, s)
    }

    /// Pairs whose consensus has length `x`.
    pub closed spec fn ins(&self, x: u32) -> nat {
        self.insert_len.count(x)
    }

    /// Deletion runs recorded from `x` to `y`.
    pub closed spec fn del(&self, x: usize, y: usize) -> nat {
        map_count(self.del_hash@, (x, y))
    }

    /// Entry `c` of the 2x2 table of positions i <= j.
    pub closed spec fn corr(&self, i: int, j: int, c: int) -> nat {
        self.mut_corr.at(i, j, c)
    }

    /// Aligned reads added.
    pub closed spec fn reads(&self) -> nat {
        self.n_reads as nat
    }

    /// Counting operations applied, an upper bound on every count.
    pub closed spec fn updates(&self) -> nat {
        self.n_updates as nat
    }

    pub closed spec fn wf(&self) -> bool {
        let n = self.reference().len();
        let b = self.n_updates as nat;
        &&& self.pos_counts@.len() == n
        &&& self.mut_corr.wf()
        &&& self.insert_len.wf()
        &&& all_positive(self.del_hash@)
        &&& forall|i: int, s: int| 0 <= i < n && 0 <= s < 6 ==> #[trigger] self.pos(i, s) <= b
        &&& self.insert_len.bounded_by(b)
        &&& all_at_most(self.del_hash@, b)
        &&& self.mut_corr.bounded_by(b)
        &&& self.n_reads <= self.n_updates
    }

    /// Empty statistics over the reference `rf`.
    pub fn new(rf: &'a [u8]) -> (r: Self)
        requires
            triangle(rf@.len() as nat) <= usize::MAX,
        ensures
            r.wf(),
            r.reference() == rf@,
            r.reads() == 0,
            r.updates() == 0,
            forall|i: int, s: int| 0 <= i < rf@.len() && 0 <= s < 6 ==> #[trigger] r.pos(i, s) == 0,
            forall|x: u32| #[trigger] r.ins(x) == 0,
            forall|x: usize, y: usize| #[trigger] r.del(x, y) == 0,
            forall|i: int, j: int, c: int|
                0 <= i <= j < rf@.len() && 0 <= c < 4 ==> #[trigger] r.corr(i, j, c) == 0,
    {
        let size = rf.len();
        let mut pos_counts: Vec<Counts> = Vec::new();
        let mut i: usize = 0;
        while i < size
            invariant
                i <= size,
                size == rf@.len(),
                pos_counts@.len() == i,
                forall|q: int, s: int|
                    0 <= q < i && 0 <= s < 6 ==> #[trigger] pos_at(pos_counts@, q, s) == 0,
            decreases size - i,
        {
            let c = Counts::new();
            let ghost prev = pos_counts@;
            pos_counts.push(c);
            assert forall|q: int, s: int|
                0 <= q < i + 1 && 0 <= s < 6 implies #[trigger] pos_at(pos_counts@, q, s) == 0 by {
                if q == i {
                    assert(c.get(s) == 0);
                } else {
                    assert(pos_at(prev, q, s) == 0);
                }
            }
            i = i + 1;
        }
        let insert_len = InsertLength::new();
        let mut_corr = MutCorr::new(rf);
        let del_hash: BTreeMap<(usize, usize), u64> = BTreeMap::new();
        let r = Stats { pos_counts, insert_len, mut_corr, del_hash, n_reads: 0, n_updates: 0 };
        assert(r.insert_len.bounded_by(0));
        assert forall|i: int, j: int, c: int|
            0 <= i <= j < rf@.len() && 0 <= c < 4 implies #[trigger] r.mut_corr.at(i, j, c) <= 0 by {
        }
        r
    }

    /// Adds one aligned read: per-position base, deletion and insertion
    /// counts over the positions it covers, the read count, and, when the
    /// read has the reference's length, the mutation co-occurrence tables
    /// (a read of another length leaves those tables as they were).
    pub fn add_obs(&mut self, p: &[u8])
        requires
            old(self).wf(),
            old(self).updates() < u64::MAX,
        ensures
            final(self).wf(),
            final(self).updates() == old(self).updates() + 1,
            obs_step(*old(self), *final(self), p@),
    {
        let n = self.pos_counts.len();
        let ghost b0 = self.n_updates as nat;
        let ghost v0 = self.pos_counts@;
        let m = if p.len() < n { p.len() } else { n };
        assert forall|q: int, s: int| 0 <= q < n && 0 <= s < 6 implies #[trigger] pos_at(v0, q, s) <= b0 by {
            assert(old(self).pos(q, s) <= b0);
        }
        let mut i: usize = 0;
        while i < m
            invariant
                self.n_reads == old(self).n_reads,
                self.n_updates == old(self).n_updates,
                self.insert_len == old(self).insert_len,
                self.mut_corr == old(self).mut_corr,
                self.del_hash == old(self).del_hash,
                i <= m,
                m <= n,
                m <= p@.len(),
                n == self.pos_counts@.len(),
                v0.len() == n,
                forall|q: int, s: int|
                    0 <= q < n && 0 <= s < 6 ==> #[trigger] pos_at(v0, q, s) <= b0,
                b0 < u64::MAX,
                forall|q: int, s: int|
                    0 <= q < n && 0 <= s < 6 ==> #[trigger] pos_at(self.pos_counts@, q, s)
                        == pos_at(v0, q, s) + if q < i {
                        obs_inc(p@, q, s)
                    } else {
                        0
                    },
            decreases m - i,
        {
            let c = p[i];
            let mut cts = self.pos_counts[i];
            let ghost before = self.pos_counts@;
            assert(forall|s: int| 0 <= s < 6 ==> #[trigger] cts.get(s) == pos_at(v0, i as int, s)) by {
                assert forall|s: int| 0 <= s < 6 implies #[trigger] cts.get(s) == pos_at(v0, i as int, s) by {
                    assert(pos_at(before, i as int, s) == pos_at(v0, i as int, s));
                }
            }
            let sl = slot_exec(c);
            assert(base_slot(c) is Some ==> sl <= 4);
            if sl < 6 {
                assert(cts.get(sl as int) <= b0);
                cts.inc(sl as usize);
            }
            if 97 <= c && c <= 122 {
                assert(cts.get(5) <= b0);
                cts.inc(5);
            }
            assert(forall|s: int|
                0 <= s < 6 ==> #[trigger] cts.get(s) == pos_at(v0, i as int, s) + obs_inc(p@, i as int, s));
            self.pos_counts.set(i, cts);
            assert forall|q: int, s: int|
                0 <= q < n && 0 <= s < 6 implies #[trigger] pos_at(self.pos_counts@, q, s) == pos_at(
                v0,
                q,
                s,
            ) + if q < i + 1 {
                obs_inc(p@, q, s)
            } else {
                0
            } by {
                if q != i {
                    assert(pos_at(self.pos_counts@, q, s) == pos_at(before, q, s));
                } else {
                    assert(pos_at(self.pos_counts@, q, s) == cts.get(s));
                }
            }
            i = i + 1;
        }
        assert forall|q: int, s: int|
            0 <= q < n && 0 <= s < 6 implies #[trigger] pos_at(self.pos_counts@, q, s) == pos_at(
            v0,
            q,
            s,
        ) + obs_inc(p@, q, s) by {
            if q >= m {
                assert(obs_inc(p@, q, s) == 0);
            }
        }
        self.n_reads = self.n_reads + 1;
        self.n_updates = self.n_updates + 1;
        if p.len() == n {
            self.mut_corr.add_obs(p);
        }
        assert(self.insert_len.bounded_by(self.n_updates as nat));
        assert(all_at_most(self.del_hash@, self.n_updates as nat));
        assert forall|i: int, j: int, c: int|
            0 <= i <= j < n && 0 <= c < 4 implies #[trigger] self.mut_corr.at(i, j, c)
            <= self.n_updates as nat by {
            assert(old(self).mut_corr.at(i, j, c) <= b0);
        }
    }

    /// Counts one more deletion run from `x` to `y`.
    pub fn add_del(&mut self, x: usize, y: usize)
        requires
            old(self).wf(),
            old(self).updates() < u64::MAX,
        ensures
            final(self).wf(),
            final(self).updates() == old(self).updates() + 1,
            final(self).reference() == old(self).reference(),
            final(self).reads() == old(self).reads(),
            forall|i: int, s: int| #[trigger] final(self).pos(i, s) == old(self).pos(i, s),
            forall|z: u32| #[trigger] final(self).ins(z) == old(self).ins(z),
            forall|a: usize, b: usize| #[trigger]
                final(self).del(a, b) == old(self).del(a, b) + if a == x && b == y {
                    1nat
                } else {
                    0nat
                },
            forall|i: int, j: int, c: int| #[trigger]
                final(self).corr(i, j, c) == old(self).corr(i, j, c),
    {
        let n = self.pos_counts.len();
        assert(map_count(self.del_hash@, (x, y)) <= self.n_updates);
        bump(&mut self.del_hash, (x, y));
        self.n_updates = self.n_updates + 1;
        assert forall|i: int, s: int|
            0 <= i < n && 0 <= s < 6 implies #[trigger] self.pos(i, s) <= self.n_updates as nat by {
            assert(old(self).pos(i, s) <= old(self).n_updates);
        }
        assert(self.insert_len.bounded_by(self.n_updates as nat));
        assert forall|i: int, j: int, c: int|
            0 <= i <= j < n && 0 <= c < 4 implies #[trigger] self.mut_corr.at(i, j, c)
            <= self.n_updates as nat by {
            assert(old(self).mut_corr.at(i, j, c) <= old(self).n_updates);
        }
        assert forall|a: usize, b: usize| #[trigger]
            self.del(a, b) == old(self).del(a, b) + if a == x && b == y {
                1nat
            } else {
                0nat
            } by {
            assert(map_count(self.del_hash@, (a, b)) == map_count(old(self).del_hash@, (a, b)) + if (
            a, b) == (x, y) {
                1nat
            } else {
                0nat
            });
        }
    }

    /// Counts one more pair whose consensus has length `len`.
    pub fn add_len(&mut self, len: u32)
        requires
            old(self).wf(),
            old(self).updates() < u64::MAX,
        ensures
            final(self).wf(),
            final(self).updates() == old(self).updates() + 1,
            final(self).reference() == old(self).reference(),
            final(self).reads() == old(self).reads(),
            forall|i: int, s: int| #[trigger] final(self).pos(i, s) == old(self).pos(i, s),
            forall|z: u32| #[trigger]
                final(self).ins(z) == old(self).ins(z) + if z == len {
                    1nat
                } else {
                    0nat
                },
            forall|a: usize, b: usize| #[trigger] final(self).del(a, b) == old(self).del(a, b),
            forall|i: int, j: int, c: int| #[trigger]
                final(self).corr(i, j, c) == old(self).corr(i, j, c),
    {
        let n = self.pos_counts.len();
        assert(self.insert_len.count(len) <= self.n_updates);
        self.insert_len.add_len(len);
        self.n_updates = self.n_updates + 1;
        assert forall|i: int, s: int|
            0 <= i < n && 0 <= s < 6 implies #[trigger] self.pos(i, s) <= self.n_updates as nat by {
            assert(old(self).pos(i, s) <= old(self).n_updates);
        }
        assert forall|i: int, j: int, c: int|
            0 <= i <= j < n && 0 <= c < 4 implies #[trigger] self.mut_corr.at(i, j, c)
            <= self.n_updates as nat by {
            assert(old(self).mut_corr.at(i, j, c) <= old(self).n_updates);
        }
    }

    /// Adds the counts of `rhs`, gathered over the same reference, as when
    /// the statistics of several workers are combined.
    pub fn merge(&mut self, rhs: Stats<'a>)
        requires
            old(self).wf(),
            rhs.wf(),
            rhs.reference() == old(self).reference(),
            old(self).updates() + rhs.updates() <= u64::MAX,
        ensures
            final(self).wf(),
            final(self).updates() == old(self).updates() + rhs.updates(),
            merged(*old(self), rhs, *final(self)),
    {
        let n = self.pos_counts.len();
        let ghost a = self.n_updates as nat;
        let ghost b = rhs.n_updates as nat;
        let ghost v0 = self.pos_counts@;
        assert forall|q: int, t: int| 0 <= q < n && 0 <= t < 6 implies #[trigger] pos_at(v0, q, t) <= a by {
            assert(old(self).pos(q, t) <= a);
        }
        assert forall|q: int, t: int| 0 <= q < n && 0 <= t < 6 implies #[trigger] pos_at(rhs.pos_counts@, q, t) <= b by {
            assert(rhs.pos(q, t) <= b);
        }
        let mut i: usize = 0;
        while i < n
            invariant
                self.n_reads == old(self).n_reads,
                self.n_updates == old(self).n_updates,
                self.insert_len == old(self).insert_len,
                self.mut_corr == old(self).mut_corr,
                self.del_hash == old(self).del_hash,
                i <= n,
                n == self.pos_counts@.len(),
                n == rhs.pos_counts@.len(),
                v0 == old(self).pos_counts@,
                a == old(self).n_updates,
                b == rhs.n_updates,
                a + b <= u64::MAX,
                forall|q: int, s: int| 0 <= q < n && 0 <= s < 6 ==> #[trigger] pos_at(v0, q, s) <= a,
                forall|q: int, s: int|
                    0 <= q < n && 0 <= s < 6 ==> #[trigger] pos_at(rhs.pos_counts@, q, s) <= b,
                forall|q: int, s: int|
                    0 <= q < n && 0 <= s < 6 ==> #[trigger] pos_at(self.pos_counts@, q, s)
                        == pos_at(v0, q, s) + if q < i {
                        pos_at(rhs.pos_counts@, q, s)
                    } else {
                        0
                    },
            decreases n - i,
        {
            let mut c1 = self.pos_counts[i];
            let c2 = rhs.pos_counts[i];
            let ghost before = self.pos_counts@;
            assert(forall|t: int| 0 <= t < 6 ==> #[trigger] c1.get(t) == pos_at(before, i as int, t));
            assert forall|t: int| 0 <= t < 6 implies #[trigger] c1.get(t) + c2.get(t) <= u64::MAX by {
                assert(pos_at(before, i as int, t) == pos_at(v0, i as int, t));
                assert(pos_at(v0, i as int, t) <= a);
                assert(pos_at(rhs.pos_counts@, i as int, t) <= b);
            }
            c1.add(&c2);
            self.pos_counts.set(i, c1);
            assert forall|q: int, t: int|
                0 <= q < n && 0 <= t < 6 implies #[trigger] pos_at(self.pos_counts@, q, t) == pos_at(
                v0,
                q,
                t,
            ) + if q < i + 1 {
                pos_at(rhs.pos_counts@, q, t)
            } else {
                0
            } by {
                if q != i {
                    assert(pos_at(self.pos_counts@, q, t) == pos_at(before, q, t));
                } else {
                    assert(pos_at(before, q, t) == pos_at(v0, q, t));
                }
            }
            i = i + 1;
        }
        assert forall|x: u32| #[trigger] self.insert_len.count(x) + rhs.insert_len.count(x)
            <= u64::MAX by {
            assert(self.insert_len.count(x) <= a);
            assert(rhs.insert_len.count(x) <= b);
        }
        self.insert_len.merge(&rhs.insert_len);
        assert forall|i1: int, j1: int, c: int|
            0 <= i1 <= j1 < n && 0 <= c < 4 implies #[trigger] self.mut_corr.at(i1, j1, c)
            + rhs.mut_corr.at(i1, j1, c) <= u64::MAX by {
            assert(self.mut_corr.at(i1, j1, c) <= a);
            assert(rhs.mut_corr.at(i1, j1, c) <= b);
        }
        self.mut_corr.merge(&rhs.mut_corr);
        assert forall|k: (usize, usize)| #[trigger] map_count(self.del_hash@, k) + map_count(
            rhs.del_hash@,
            k,
        ) <= u64::MAX by {
            assert(map_count(self.del_hash@, k) <= a);
            assert(map_count(rhs.del_hash@, k) <= b);
        }
        add_counts(&mut self.del_hash, &rhs.del_hash);
        self.n_reads = self.n_reads + rhs.n_reads;
        self.n_updates = self.n_updates + rhs.n_updates;
        assert forall|q: int, t: int|
            0 <= q < n && 0 <= t < 6 implies #[trigger] self.pos(q, t) <= self.n_updates as nat by {
            assert(old(self).pos(q, t) <= a);
            assert(rhs.pos(q, t) <= b);
        }
        assert forall|x: u32| #[trigger] self.insert_len.count(x) <= self.n_updates as nat by {
            assert(old(self).insert_len.count(x) <= a);
            assert(rhs.insert_len.count(x) <= b);
        }
        assert forall|x: u32| #[trigger] self.insert_len.hash@.contains_key(x) implies self.insert_len.hash@[x]
            <= self.n_updates by {
            assert(self.insert_len.count(x) <= self.n_updates as nat);
        }
        assert(self.insert_len.bounded_by(self.n_updates as nat));
        assert forall|k: (usize, usize)| #[trigger] self.del_hash@.contains_key(k) implies self.del_hash@[k]
            <= self.n_updates by {
            assert(map_count(self.del_hash@, k) == map_count(old(self).del_hash@, k) + map_count(
                rhs.del_hash@,
                k,
            ));
            assert(map_count(old(self).del_hash@, k) <= a);
            assert(map_count(rhs.del_hash@, k) <= b);
        }
        assert forall|i1: int, j1: int, c: int|
            0 <= i1 <= j1 < n && 0 <= c < 4 implies #[trigger] self.mut_corr.at(i1, j1, c)
            <= self.n_updates as nat by {
            assert(old(self).mut_corr.at(i1, j1, c) <= a);
            assert(rhs.mut_corr.at(i1, j1, c) <= b);
        }
        assert forall|x: usize, y: usize| #[trigger] self.del(x, y) == old(self).del(x, y) + rhs.del(
            x,
            y,
        ) by {
            assert(map_count(self.del_hash@, (x, y)) == map_count(old(self).del_hash@, (x, y))
                + map_count(rhs.del_hash@, (x, y)));
        }
    }

    /// The counts at reference position `i`.
    pub fn counts(&self, i: usize) -> (r: Counts)
        requires
            self.wf(),
            i < self.reference().len(),
        ensures
            forall|s: int| 0 <= s < 6 ==> #[trigger] r.get(s) == self.pos(i as int, s),
    {
        self.pos_counts[i]
    }

    /// Deletion runs recorded from `x` to `y`.
    pub fn del_count(&self, x: usize, y: usize) -> (r: u64)
        ensures
            r == self.del(x, y),
    {
        match self.del_hash.get(&(x, y)) {
            Some(v) => *v,
            None => 0,
        }
    }

    /// The 2x2 mutation co-occurrence table of positions `i` and `j`, in
    /// either order (see `MutCorr::table`).
    pub fn corr_table(&self, i: usize, j: usize) -> (r: [u64; 4])
        requires
            self.wf(),
            i < self.reference().len(),
            j < self.reference().len(),
        ensures
            forall|c: int| 0 <= c < 4 ==> #[trigger] r@[c] == corr_entry(*self, i as int, j as int, c),
    {
        self.mut_corr.table(i, j)
    }

    /// Deletion co-occurrence map over `ref_len` x `ref_len` positions, row
    /// by row: cell (x, y) counts the runs from x + 1 to y + 1, and, off
    /// the diagonal, those from y + 1 to x + 1.
    pub fn mk_del_cm(&self, ref_len: usize) -> (r: Vec<u128>)
        requires
            ref_len * ref_len <= usize::MAX,
        ensures
            r@.len() == ref_len * ref_len,
            forall|k: int|
                0 <= k < ref_len * ref_len ==> #[trigger] r@[k] == del_cm(
                    *self,
                    k / ref_len as int,
                    k % ref_len as int,
                ),
    {
        let n = ref_len * ref_len;
        let mut cm: Vec<u128> = Vec::new();
        let mut k: usize = 0;
        while k < n
            invariant
                n == ref_len * ref_len,
                k <= n,
                cm@.len() == k,
                forall|t: int|
                    0 <= t < k ==> #[trigger] cm@[t] == del_cm(*self, t / ref_len as int, t % ref_len as int),
            decreases n - k,
        {
            let x = k / ref_len;
            let y = k % ref_len;
            let a = self.del_count(x + 1, y + 1) as u128;
            let v = if x != y {
                a + self.del_count(y + 1, x + 1) as u128
            } else {
                a
            };
            cm.push(v);
            k = k + 1;
        }
        cm
    }

    /// The deletion table: one row (start, stop, count) per deletion run
    /// recorded, by decreasing count, then increasing span (stop - start).
    pub fn del_table(&self) -> (r: Vec<(usize, usize, u64)>)
        requires
            self.wf(),
        ensures
            forall|t: int|
                0 <= t < r@.len() ==> #[trigger] r@[t].2 as nat == self.del(r@[t].0, r@[t].1)
                    && r@[t].2 > 0,
            forall|x: usize, y: usize|
                self.del(x, y) > 0 ==> exists|t: int|
                    0 <= t < r@.len() && #[trigger] r@[t].0 == x && r@[t].1 == y,
            rows_sorted(r@),
            keys_distinct(r@),
    {
        let m = &self.del_hash;
        assert(vstd::std_specs::btree::key_obeys_cmp_spec::<(usize, usize)>());
        let itr = m.iter();
        let ghost s0 = itr.remaining();
        let mut v: Vec<(usize, usize, u64)> = Vec::new();
        for item in it: itr
            invariant
                it.seq() == s0,
                s0.no_duplicates(),
                forall|t: int|
                    0 <= t < s0.len() ==> m@.contains_key(*#[trigger] s0[t].0) && m@[*s0[t].0]
                        == *s0[t].1,
                forall|k: (usize, usize)| #[trigger] m@.contains_key(k) ==> s0.contains((&k, &m@[k])),
                v@.len() == it.index(),
                forall|t: int| 0 <= t < v@.len() ==> #[trigger] v@[t] == (s0[t].0.0, s0[t].0.1, *s0[t].1),
        {
            let (k, c) = item;
            v.push((k.0, k.1, *c));
        }
        proof {
            assert forall|t1: int, t2: int| 0 <= t1 < t2 < v@.len() implies #[trigger] row_key(v@[t1]) != #[trigger] row_key(v@[t2]) by {
                if row_key(v@[t1]) == row_key(v@[t2]) {
                    assert(*s0[t1].0 == *s0[t2].0);
                    assert(s0[t1] == s0[t2]);
                }
            }
            assert(keys_distinct(v@));
        }
        let mut r: Vec<(usize, usize, u64)> = Vec::new();
        let mut i: usize = 0;
        while i < v.len()
            invariant
                i <= v@.len(),
                r@.len() == i,
                keys_distinct(v@),
                forall|t: int| 0 <= t < r@.len() ==> exists|u: int| 0 <= u < i && #[trigger] r@[t] == v@[u],
                forall|u: int| 0 <= u < i ==> exists|t: int| 0 <= t < r@.len() && r@[t] == #[trigger] v@[u],
                rows_sorted(r@),
                keys_distinct(r@),
            decreases v@.len() - i,
        {
            let e = v[i];
            let ghost r0 = r@;
            proof {
                assert forall|t: int| 0 <= t < r0.len() implies #[trigger] row_key(r0[t]) != row_key(e) by {
                    let u = choose|u: int| 0 <= u < i && r0[t] == v@[u];
                    assert(row_key(v@[u]) != row_key(v@[i as int]));
                }
            }
            let p = insert_sorted(&mut r, e);
            proof {
                r0.insert_ensures(p as int, e);
                assert forall|t: int| 0 <= t < r@.len() implies exists|u: int|
                    0 <= u < i + 1 && #[trigger] r@[t] == v@[u] by {
                    if t < p {
                        let u = choose|u: int| 0 <= u < i && r0[t] == v@[u];
                        assert(r@[t] == v@[u]);
                    } else if t == p {
                        assert(r@[t] == v@[i as int]);
                    } else {
                        let u = choose|u: int| 0 <= u < i && r0[t - 1] == v@[u];
                        assert(r@[t] == v@[u]);
                    }
                }
                assert forall|u: int| 0 <= u < i + 1 implies exists|t: int|
                    0 <= t < r@.len() && r@[t] == #[trigger] v@[u] by {
                    if u == i {
                        assert(r@[p as int] == v@[u]);
                    } else {
                        let t = choose|t: int| 0 <= t < r0.len() && r0[t] == v@[u];
                        if t < p {
                            assert(r@[t] == v@[u]);
                        } else {
                            assert(r@[t + 1] == v@[u]);
                        }
                    }
                }
            }
            i = i + 1;
        }
        proof {
            assert forall|t: int| 0 <= t < r@.len() implies #[trigger] r@[t].2 as nat == self.del(
                r@[t].0,
                r@[t].1,
            ) && r@[t].2 > 0 by {
                let u = choose|u: int| 0 <= u < v@.len() && r@[t] == v@[u];
                assert(m@.contains_key(*s0[u].0));
            }
            assert forall|x: usize, y: usize| self.del(x, y) > 0 implies exists|t: int|
                0 <= t < r@.len() && #[trigger] r@[t].0 == x && r@[t].1 == y by {
                let k = (x, y);
                assert(m@.contains_key(k));
                assert(s0.contains((&k, &m@[k])));
                let u = choose|u: int| 0 <= u < s0.len() && s0[u] == (&k, &m@[k]);
                assert(v@[u].0 == x && v@[u].1 == y);
                let t = choose|t: int| 0 <= t < r@.len() && r@[t] == v@[u];
                assert(r@[t].0 == x);
            }
        }
        r
    }

    /// The consensus-length histogram, by increasing length: each length
    /// seen, with its count.
    pub fn insert_table(&self) -> (r: Vec<(u32, u64)>)
        requires
            self.wf(),
        ensures
            forall|t: int|
                0 <= t < r@.len() ==> #[trigger] r@[t].1 as nat == self.ins(r@[t].0) && r@[t].1 > 0,
            forall|t1: int, t2: int| 0 <= t1 < t2 < r@.len() ==> #[trigger] r@[t1].0 < #[trigger] r@[t2].0,
            forall|x: u32| self.ins(x) > 0 ==> exists|t: int| 0 <= t < r@.len() && #[trigger] r@[t].0 == x,
    {
        let m = &self.insert_len.hash;
        assert(vstd::std_specs::btree::key_obeys_cmp_spec::<u32>());
        let itr = m.iter();
        let ghost s0 = itr.remaining();
        let ghost keys = s0.map_values(|kv: (&u32, &u64)| *kv.0);
        assert(vstd::std_specs::btree::increasing_seq(keys));
        assert(vstd::laws_cmp::obeys_cmp::<u32>());
        assert forall|i: int, j: int| 0 <= i < j < keys.len() implies #[trigger] keys[i]
            < #[trigger] keys[j] by {
            assert(keys[i].cmp_spec(&keys[j]) is Less);
        }
        let mut r: Vec<(u32, u64)> = Vec::new();
        for item in it: itr
            invariant
                it.seq() == s0,
                keys == s0.map_values(|kv: (&u32, &u64)| *kv.0),
                forall|i: int, j: int| 0 <= i < j < keys.len() ==> #[trigger] keys[i] < #[trigger] keys[j],
                forall|t: int|
                    0 <= t < s0.len() ==> m@.contains_key(*#[trigger] s0[t].0) && m@[*s0[t].0]
                        == *s0[t].1,
                forall|k: u32| #[trigger] m@.contains_key(k) ==> s0.contains((&k, &m@[k])),
                all_positive(m@),
                r@.len() == it.index(),
                forall|t: int| 0 <= t < r@.len() ==> #[trigger] r@[t] == (*s0[t].0, *s0[t].1),
        {
            let (k, v) = item;
            r.push((*k, *v));
        }
        proof {
            assert forall|t: int| 0 <= t < r@.len() implies #[trigger] r@[t].1 as nat == self.ins(
                r@[t].0,
            ) && r@[t].1 > 0 by {
                assert(m@.contains_key(*s0[t].0));
            }
            assert forall|t1: int, t2: int| 0 <= t1 < t2 < r@.len() implies #[trigger] r@[t1].0
                < #[trigger] r@[t2].0 by {
                assert(keys[t1] < keys[t2]);
            }
            assert forall|x: u32| self.ins(x) > 0 implies exists|t: int|
                0 <= t < r@.len() && #[trigger] r@[t].0 == x by {
                assert(m@.contains_key(x));
                assert(s0.contains((&x, &m@[x])));
                let t = choose|t: int| 0 <= t < s0.len() && s0[t] == (&x, &m@[x]);
                assert(r@[t].0 == x);
            }
        }
        r
    }

    /// Aligned reads added so far.
    pub fn n_reads(&self) -> (r: u64)
        ensures
            r == self.reads(),
    {
        self.n_reads
    }

    /// Counting operations applied so far; each `add_*` call needs this
    /// under `u64::MAX`, and a merge needs the two sums to fit.
    pub fn n_updates(&self) -> (r: u64)
        ensures
            r == self.updates(),
    {
        self.n_updates
    }
}

} // verus!
