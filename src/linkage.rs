use vstd::prelude::*;

use crate::cluster_map::{ClusterMap, Distances};

verus! {

/// Largest number of items a distance matrix may describe. A dense matrix over
/// more items would hold more than 2^40 cells, beyond what a machine can store;
/// the bound keeps every exact linkage sum and comparison inside 128 bits.
pub const MAX_ITEMS: usize = 1048576;

/// Rule for deriving the distance between two clusters from the distances
/// between their members.
#[derive(Debug, Clone, Copy, PartialEq, Eq, Structural)]
pub enum LinkageMethod {
    Single,
    Complete,
    Average,
}

/// An exact inter-cluster distance: the rational number `total / count`.
/// Single and complete linkage always give `count == 1`.
#[derive(Debug, Clone, Copy, PartialEq, Eq, Structural)]
pub struct LinkageDistance {
    pub total: u128,
    pub count: u64,
}

pub open spec fn max_pairs() -> int {
    (MAX_ITEMS as int) * (MAX_ITEMS as int)
}

impl LinkageDistance {
    /// The bounds under which comparisons between distances cannot overflow.
    pub open spec fn wf(self) -> bool {
        &&& 1 <= self.count <= max_pairs()
        &&& self.total <= (self.count as int) * (u32::MAX as int)
    }

    /// The distance as the pair (numerator, denominator).
    pub open spec fn frac(self) -> (int, int) {
        (self.total as int, self.count as int)
    }

    /// The distance of a single matrix entry.
    pub fn from_entry(d: u32) -> (r: LinkageDistance)
        ensures
            r.total == d as u128,
            r.count == 1,
            r.wf(),
    {
        LinkageDistance { total: d as u128, count: 1 }
    }

    /// Strict comparison of two distances as rational numbers.
    pub fn less_than(&self, other: &LinkageDistance) -> (r: bool)
        requires
            self.wf(),
            other.wf(),
        ensures
            r == frac_lt(self.frac(), other.frac()),
    {
        proof {
            lemma_cross_bound(*self, *other);
            lemma_cross_bound(*other, *self);
        }
        self.total * (other.count as u128) < other.total * (self.count as u128)
    }
}

proof fn lemma_cross_bound(a: LinkageDistance, b: LinkageDistance)
    requires
        a.wf(),
        b.wf(),
    ensures
        (a.total as int) * (b.count as int) <= u128::MAX,
{
    let p = max_pairs();
    assert(p == 1099511627776);
    assert((a.total as int) <= p * 4294967295) by (nonlinear_arith)
        requires
            a.total <= (a.count as int) * 4294967295,
            a.count <= p,
    ;
    assert((a.total as int) * (b.count as int) <= (p * 4294967295) * p) by (nonlinear_arith)
        requires
            0 <= a.total <= p * 4294967295,
            0 <= b.count <= p,
    ;
}

/// `a <= b` for the rational numbers `a.0 / a.1` and `b.0 / b.1`.
pub open spec fn frac_le(a: (int, int), b: (int, int)) -> bool {
    a.0 * b.1 <= b.0 * a.1
}

/// `a < b` for the rational numbers `a.0 / a.1` and `b.0 / b.1`.
pub open spec fn frac_lt(a: (int, int), b: (int, int)) -> bool {
    a.0 * b.1 < b.0 * a.1
}

/// `a < b` and `b <= c` give `a < c`, for positive denominators.
pub proof fn lemma_lt_le_trans(a: (int, int), b: (int, int), c: (int, int))
    requires
        a.1 > 0,
        b.1 > 0,
        c.1 > 0,
        frac_lt(a, b),
        frac_le(b, c),
    ensures
        frac_lt(a, c),
{
    let (at, ac, bt, bc, ct, cc) = (a.0, a.1, b.0, b.1, c.0, c.1);
    assert(at * cc < ct * ac) by (nonlinear_arith)
        requires
            at * bc < bt * ac,
            bt * cc <= ct * bc,
            ac > 0,
            bc > 0,
            cc > 0,
    ;
}

/// The matrix entry for leaves `i` and `j`.
pub open spec fn entry(m: Seq<Seq<u32>>, i: usize, j: usize) -> int {
    m[i as int][j as int] as int
}

/// Smallest entry between leaf `i` and the leaves of `b` (`u32::MAX` when `b` is empty).
pub open spec fn row_min(m: Seq<Seq<u32>>, i: usize, b: Seq<usize>) -> int
    decreases b.len(),
{
    if b.len() == 0 {
        u32::MAX as int
    } else {
        let r = row_min(m, i, b.drop_last());
        let d = entry(m, i, b.last());
        if d < r { d } else { r }
    }
}

/// Largest entry between leaf `i` and the leaves of `b` (0 when `b` is empty).
pub open spec fn row_max(m: Seq<Seq<u32>>, i: usize, b: Seq<usize>) -> int
    decreases b.len(),
{
    if b.len() == 0 {
        0
    } else {
        let r = row_max(m, i, b.drop_last());
        let d = entry(m, i, b.last());
        if d > r { d } else { r }
    }
}

/// Sum of the entries between leaf `i` and the leaves of `b`.
pub open spec fn row_sum(m: Seq<Seq<u32>>, i: usize, b: Seq<usize>) -> int
    decreases b.len(),
{
    if b.len() == 0 {
        0
    } else {
        row_sum(m, i, b.drop_last()) + entry(m, i, b.last())
    }
}

/// Smallest entry over all pairs of a leaf of `a` with a leaf of `b`.
pub open spec fn pair_min(m: Seq<Seq<u32>>, a: Seq<usize>, b: Seq<usize>) -> int
    decreases a.len(),
{
    if a.len() == 0 {
        u32::MAX as int
    } else {
        let r = pair_min(m, a.drop_last(), b);
        let d = row_min(m, a.last(), b);
        if d < r { d } else { r }
    }
}

/// Largest entry over all pairs of a leaf of `a` with a leaf of `b`.
pub open spec fn pair_max(m: Seq<Seq<u32>>, a: Seq<usize>, b: Seq<usize>) -> int
    decreases a.len(),
{
    if a.len() == 0 {
        0
    } else {
        let r = pair_max(m, a.drop_last(), b);
        let d = row_max(m, a.last(), b);
        if d > r { d } else { r }
    }
}

/// Sum of the entries over all pairs of a leaf of `a` with a leaf of `b`.
pub open spec fn pair_sum(m: Seq<Seq<u32>>, a: Seq<usize>, b: Seq<usize>) -> int
    decreases a.len(),
{
    if a.len() == 0 {
        0
    } else {
        pair_sum(m, a.drop_last(), b) + row_sum(m, a.last(), b)
    }
}

/// The distance between the clusters with members `a` and `b` under `method`,
/// as the pair (numerator, denominator) of a rational number.
pub open spec fn linkage_of(m: Seq<Seq<u32>>, method: LinkageMethod, a: Seq<usize>, b: Seq<usize>) -> (int, int) {
    match method {
        LinkageMethod::Single => (pair_min(m, a, b), 1),
        LinkageMethod::Complete => (pair_max(m, a, b), 1),
        LinkageMethod::Average => (pair_sum(m, a, b), (a.len() * b.len()) as int),
    }
}

/// `d` is the exact linkage distance between the clusters with members `a` and `b`.
pub open spec fn is_linkage(d: LinkageDistance, m: Seq<Seq<u32>>, method: LinkageMethod, a: Seq<usize>, b: Seq<usize>) -> bool {
    d.frac() == linkage_of(m, method, a, b)
}

/// Every row of `m` has one entry per row.
pub open spec fn is_square(m: Seq<Seq<u32>>) -> bool {
    forall|r: int| 0 <= r < m.len() ==> #[trigger] m[r].len() == m.len()
}

/// Every leaf of `s` is below `n`.
pub open spec fn leaves_below(s: Seq<usize>, n: int) -> bool {
    forall|k: int| 0 <= k < s.len() ==> (#[trigger] s[k] as int) < n
}

proof fn lemma_row_bounds(m: Seq<Seq<u32>>, i: usize, b: Seq<usize>)
    ensures
        0 <= row_sum(m, i, b) <= b.len() * (u32::MAX as int),
        0 <= row_min(m, i, b) <= u32::MAX,
        0 <= row_max(m, i, b) <= u32::MAX,
        b.len() > 0 ==> row_min(m, i, b) * b.len() <= row_sum(m, i, b),
        row_sum(m, i, b) <= row_max(m, i, b) * b.len(),
    decreases b.len(),
{
    if b.len() > 0 {
        let c = b.drop_last();
        lemma_row_bounds(m, i, c);
        let d = entry(m, i, b.last());
        let (mn, mx, sm) = (row_min(m, i, b), row_max(m, i, b), row_sum(m, i, b));
        let (mn0, mx0, sm0) = (row_min(m, i, c), row_max(m, i, c), row_sum(m, i, c));
        let l = c.len() as int;
        assert(sm <= mx * (l + 1)) by (nonlinear_arith)
            requires
                sm == sm0 + d,
                sm0 <= mx0 * l,
                mx0 <= mx,
                d <= mx,
                l >= 0,
        ;
        if l > 0 {
            assert(mn * (l + 1) <= sm) by (nonlinear_arith)
                requires
                    sm == sm0 + d,
                    mn0 * l <= sm0,
                    mn <= mn0,
                    mn <= d,
                    l >= 0,
            ;
        } else {
            assert(mn == d && sm == d);
            assert(mn * (l + 1) <= sm) by (nonlinear_arith)
                requires
                    l == 0,
                    mn == sm,
            ;
        }
        assert(b.len() == l + 1);
        assert(mn * b.len() == mn * (l + 1));
    }
}

proof fn lemma_pair_bounds(m: Seq<Seq<u32>>, a: Seq<usize>, b: Seq<usize>)
    ensures
        0 <= pair_sum(m, a, b) <= a.len() * b.len() * (u32::MAX as int),
        0 <= pair_min(m, a, b) <= u32::MAX,
        0 <= pair_max(m, a, b) <= u32::MAX,
        a.len() > 0 && b.len() > 0 ==> pair_min(m, a, b) * (a.len() * b.len()) <= pair_sum(m, a, b),
        pair_sum(m, a, b) <= pair_max(m, a, b) * (a.len() * b.len()),
    decreases a.len(),
{
    if a.len() > 0 {
        let c = a.drop_last();
        lemma_pair_bounds(m, c, b);
        lemma_row_bounds(m, a.last(), b);
        let (mn, mx, sm) = (pair_min(m, a, b), pair_max(m, a, b), pair_sum(m, a, b));
        let (mn0, mx0, sm0) = (pair_min(m, c, b), pair_max(m, c, b), pair_sum(m, c, b));
        let (rn, rx, rs) = (row_min(m, a.last(), b), row_max(m, a.last(), b), row_sum(m, a.last(), b));
        let l = c.len() as int;
        let w = b.len() as int;
        assert(sm <= (l + 1) * w * 4294967295) by (nonlinear_arith)
            requires
                sm == sm0 + rs,
                sm0 <= l * w * 4294967295,
                rs <= w * 4294967295,
        ;
        assert(sm <= mx * ((l + 1) * w)) by (nonlinear_arith)
            requires
                sm == sm0 + rs,
                sm0 <= mx0 * (l * w),
                rs <= rx * w,
                mx0 <= mx,
                rx <= mx,
                l >= 0,
                w >= 0,
        ;
        if w > 0 {
            if l == 0 {
                assert(mn == rn);
                assert(sm == rs);
                assert(mn * ((l + 1) * w) <= sm) by (nonlinear_arith)
                    requires
                        l == 0,
                        mn == rn,
                        sm == rs,
                        rn * w <= rs,
                ;
            } else {
                assert(mn * ((l + 1) * w) <= sm) by (nonlinear_arith)
                    requires
                        sm == sm0 + rs,
                        mn0 * (l * w) <= sm0,
                        rn * w <= rs,
                        mn <= mn0,
                        mn <= rn,
                        l >= 0,
                        w >= 0,
                ;
            }
        }
    }
}

/// For two non-empty clusters, the single linkage distance is at most the
/// average linkage distance, which is at most the complete linkage distance
/// (as rational numbers `numerator / denominator`).
pub proof fn lemma_linkage_order(m: Seq<Seq<u32>>, a: Seq<usize>, b: Seq<usize>)
    requires
        a.len() > 0,
        b.len() > 0,
    ensures
        ({
            let s = linkage_of(m, LinkageMethod::Single, a, b);
            let v = linkage_of(m, LinkageMethod::Average, a, b);
            let c = linkage_of(m, LinkageMethod::Complete, a, b);
            &&& frac_le(s, v)
            &&& frac_le(v, c)
        }),
{
    lemma_pair_bounds(m, a, b);
}

proof fn lemma_row_step(m: Seq<Seq<u32>>, i: usize, b: Seq<usize>, j: int)
    requires
        0 <= j < b.len(),
    ensures
        row_min(m, i, b.take(j + 1)) == if entry(m, i, b[j]) < row_min(m, i, b.take(j)) { entry(m, i, b[j]) } else { row_min(m, i, b.take(j)) },
        row_max(m, i, b.take(j + 1)) == if entry(m, i, b[j]) > row_max(m, i, b.take(j)) { entry(m, i, b[j]) } else { row_max(m, i, b.take(j)) },
        row_sum(m, i, b.take(j + 1)) == row_sum(m, i, b.take(j)) + entry(m, i, b[j]),
{
    assert(b.take(j + 1).drop_last() =~= b.take(j));
}

proof fn lemma_pair_step(m: Seq<Seq<u32>>, a: Seq<usize>, b: Seq<usize>, i: int)
    requires
        0 <= i < a.len(),
    ensures
        pair_min(m, a.take(i + 1), b) == if row_min(m, a[i], b) < pair_min(m, a.take(i), b) { row_min(m, a[i], b) } else { pair_min(m, a.take(i), b) },
        pair_max(m, a.take(i + 1), b) == if row_max(m, a[i], b) > pair_max(m, a.take(i), b) { row_max(m, a[i], b) } else { pair_max(m, a.take(i), b) },
        pair_sum(m, a.take(i + 1), b) == pair_sum(m, a.take(i), b) + row_sum(m, a[i], b),
{
    assert(a.take(i + 1).drop_last() =~= a.take(i));
}

/// The distance between the clusters `cid1` and `cid2` under `method`.
pub fn calc_dist(
    cid1: usize,
    cid2: usize,
    cluster_map: &ClusterMap,
    distances: &Distances,
    method: LinkageMethod,
) -> (r: LinkageDistance)
    requires
        cid1 < cluster_map@.len(),
        cid2 < cluster_map@.len(),
        cluster_map@[cid1 as int].len() > 0,
        cluster_map@[cid2 as int].len() > 0,
        cluster_map@[cid1 as int].len() <= MAX_ITEMS,
        cluster_map@[cid2 as int].len() <= MAX_ITEMS,
        is_square(distances@),
        leaves_below(cluster_map@[cid1 as int], distances@.len() as int),
        leaves_below(cluster_map@[cid2 as int], distances@.len() as int),
    ensures
        is_linkage(r, distances@, method, cluster_map@[cid1 as int], cluster_map@[cid2 as int]),
        r.wf(),
{
    let item1 = cluster_map.get_cluster(cid1);
    let item2 = cluster_map.get_cluster(cid2);
    let ghost m = distances@;
    let ghost a = item1@;
    let ghost b = item2@;
    let mut low: u32 = u32::MAX;
    let mut high: u32 = 0;
    let mut total: u128 = 0;
    let mut i: usize = 0;
    while i < item1.len()
        invariant
            a == item1@,
            b == item2@,
            m == distances@,
            i <= a.len(),
            a.len() <= MAX_ITEMS,
            b.len() <= MAX_ITEMS,
            is_square(m),
            leaves_below(a, m.len() as int),
            leaves_below(b, m.len() as int),
            low as int == pair_min(m, a.take(i as int), b),
            high as int == pair_max(m, a.take(i as int), b),
            total as int == pair_sum(m, a.take(i as int), b),
        decreases a.len() - i,
    {
        let x = item1[i];
        let mut row_low: u32 = u32::MAX;
        let mut row_high: u32 = 0;
        let mut row_total: u64 = 0;
        let mut j: usize = 0;
        while j < item2.len()
            invariant
                a == item1@,
                b == item2@,
                m == distances@,
                i < a.len(),
                x == a[i as int],
                j <= b.len(),
                b.len() <= MAX_ITEMS,
                is_square(m),
                (x as int) < m.len(),
                leaves_below(b, m.len() as int),
                row_low as int == row_min(m, x, b.take(j as int)),
                row_high as int == row_max(m, x, b.take(j as int)),
                row_total as int == row_sum(m, x, b.take(j as int)),
            decreases b.len() - j,
        {
            let y = item2[j];
            assert((y as int) < m.len());
            assert(m[x as int].len() == m.len());
            let d = *distances.get_distances(x, y);
            proof {
                lemma_row_step(m, x, b, j as int);
                lemma_row_bounds(m, x, b.take(j as int));
                assert(row_total as int <= (j as int) * (u32::MAX as int));
                assert((j as int) * (u32::MAX as int) <= 1048576 * 4294967295) by (nonlinear_arith)
                    requires
                        j <= 1048576,
                ;
            }
            if d < row_low {
                row_low = d;
            }
            if d > row_high {
                row_high = d;
            }
            row_total = row_total + d as u64;
            j = j + 1;
        }
        assert(b.take(b.len() as int) =~= b);
        proof {
            lemma_pair_step(m, a, b, i as int);
            lemma_pair_bounds(m, a.take(i as int), b);
            lemma_row_bounds(m, x, b);
            assert((i as int) * (b.len() as int) * (u32::MAX as int) <= 1048576 * 1048576 * 4294967295) by (nonlinear_arith)
                requires
                    i <= 1048576,
                    b.len() <= 1048576,
            ;
        }
        if row_low < low {
            low = row_low;
        }
        if row_high > high {
            high = row_high;
        }
        total = total + row_total as u128;
        i = i + 1;
    }
    assert(a.take(a.len() as int) =~= a);
    proof {
        lemma_pair_bounds(m, a, b);
    }
    match method {
        LinkageMethod::Single => LinkageDistance::from_entry(low),
        LinkageMethod::Complete => LinkageDistance::from_entry(high),
        LinkageMethod::Average => {
            proof {
                assert(a.len() * b.len() <= max_pairs()) by (nonlinear_arith)
                    requires
                        a.len() <= 1048576,
                        b.len() <= 1048576,
                        max_pairs() == 1048576 * 1048576,
                ;
                assert(a.len() * b.len() >= 1) by (nonlinear_arith)
                    requires
                        a.len() >= 1,
                        b.len() >= 1,
                ;
            }
            let count = (item1.len() as u64) * (item2.len() as u64);
            LinkageDistance { total, count }
        }
    }
}

} // verus!
