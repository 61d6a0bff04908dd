use vstd::prelude::*;

use rayon::iter::{IntoParallelRefIterator, ParallelIterator};

use crate::cluster_map::{ClusterMap, Distances};

use crate::linkage::{
    calc_dist, frac_le, frac_lt, is_linkage, is_square, leaves_below, lemma_lt_le_trans, linkage_of,
    LinkageDistance, LinkageMethod, MAX_ITEMS,
};
use crate::dendrogram::{hierarchy_of, leaf_seq, lemma_leaf_order_of_merges, ClusterHierarchy};
use crate::merges::{
    active, is_permutation, lemma_members_extend, lemma_partitioned, lemma_remove_two,
    lemma_unique_leaves_len, members, remove_two, valid_merges, valid_prefix, valid_step,
    Merge,
};

verus! {

/// Pair `(p1, q1)` of positions comes before `(p2, q2)` in the order in which
/// candidate pairs are enumerated: outer position first, then inner.
pub open spec fn pair_before(p1: int, q1: int, p2: int, q2: int) -> bool {
    p1 < p2 || (p1 == p2 && q1 < q2)
}

/// Linkage distance between the open clusters at positions `p` and `q` of
/// `act`, whose members `cm` records.
pub open spec fn cmap_link(
    m: Seq<Seq<u32>>,
    method: LinkageMethod,
    cm: Seq<Seq<usize>>,
    act: Seq<usize>,
    p: int,
    q: int,
) -> (int, int) {
    linkage_of(m, method, cm[act[p] as int], cm[act[q] as int])
}

/// Linkage distance between the open clusters at positions `p` and `q` after
/// the merges `ms` over `n` items.
pub open spec fn link_at(m: Seq<Seq<u32>>, method: LinkageMethod, n: int, ms: Seq<Merge>, p: int, q: int) -> (int, int) {
    let act = active(n, ms);
    linkage_of(m, method, members(n, ms, act[p] as int), members(n, ms, act[q] as int))
}

/// After the merges `pre`, the merge `e` joins the open clusters at positions
/// `p < q`, at their linkage distance, which no other pair undercuts, and which
/// every pair enumerated before `(p, q)` exceeds.
pub open spec fn closest_at(
    m: Seq<Seq<u32>>,
    method: LinkageMethod,
    n: int,
    pre: Seq<Merge>,
    e: Merge,
    p: int,
    q: int,
) -> bool {
    let act = active(n, pre);
    &&& 0 <= p < q < act.len()
    &&& act[p] == e.cid1
    &&& act[q] == e.cid2
    &&& e.dist.frac() == link_at(m, method, n, pre, p, q)
    &&& forall|p2: int, q2: int| 0 <= p2 < q2 < act.len() ==> {
        &&& frac_le(e.dist.frac(), #[trigger] link_at(m, method, n, pre, p2, q2))
        &&& pair_before(p2, q2, p, q) ==> frac_lt(e.dist.frac(), link_at(m, method, n, pre, p2, q2))
    }
}

/// Merge `k` of `ms` joins the closest pair of open clusters, the first in
/// enumeration order among equally close pairs.
pub open spec fn greedy_step(m: Seq<Seq<u32>>, method: LinkageMethod, n: int, ms: Seq<Merge>, k: int) -> bool {
    exists|p: int, q: int| #[trigger] closest_at(m, method, n, ms.take(k), ms[k], p, q)
}

/// `ms` is the merge sequence that agglomerative clustering of the `n` items
/// of matrix `m` under `method` produces.
pub open spec fn agglomerates(m: Seq<Seq<u32>>, method: LinkageMethod, n: int, ms: Seq<Merge>) -> bool {
    &&& valid_merges(n, ms)
    &&& forall|k: int| 0 <= k < ms.len() ==> #[trigger] greedy_step(m, method, n, ms, k)
}

/// The matrix and membership facts under which `calc_dist` may be called on
/// clusters `c1` and `c2`.
pub open spec fn linkable(cm: Seq<Seq<usize>>, m: Seq<Seq<u32>>, c1: usize, c2: usize) -> bool {
    &&& is_square(m)
    &&& (c1 as int) < cm.len()
    &&& (c2 as int) < cm.len()
    &&& cm[c1 as int].len() > 0
    &&& cm[c2 as int].len() > 0
    &&& cm[c1 as int].len() <= MAX_ITEMS
    &&& cm[c2 as int].len() <= MAX_ITEMS
    &&& leaves_below(cm[c1 as int], m.len() as int)
    &&& leaves_below(cm[c2 as int], m.len() as int)
}

/// Relies on rayon's `par_iter().map(..).collect()` over a slice: the map is
/// an indexed parallel iterator, and collecting it into a `Vec` puts the
/// result for each input at that input's index. Each result is one call of
/// the verified `calc_dist`.
#[verifier::external_body]
fn par_linkages(
    pairs: &Vec<(usize, usize)>,
    cluster_map: &ClusterMap,
    distances: &Distances,
    linkage: LinkageMethod,
) -> (r: Vec<LinkageDistance>)
    requires
        forall|k: int| 0 <= k < pairs@.len() ==> linkable(cluster_map@, distances@, #[trigger] pairs@[k].0, pairs@[k].1),
    ensures
        r@.len() == pairs@.len(),
        forall|k: int| 0 <= k < r@.len() ==> {
            &&& (#[trigger] r@[k]).wf()
            &&& is_linkage(r@[k], distances@, linkage, cluster_map@[pairs@[k].0 as int], cluster_map@[pairs@[k].1 as int])
        },
{
    pairs.par_iter().map(|&(c1, c2)| calc_dist(c1, c2, cluster_map, distances, linkage)).collect()
}

/// Finds the closest pair of open clusters: positions `(p, q)` with `p < q`
/// of the smallest linkage distance, the first such pair in enumeration order.
/// The distances of all candidate pairs are computed in parallel, then reduced
/// in enumeration order.
fn find_closest(
    active_clusters: &Vec<usize>,
    cluster_map: &ClusterMap,
    distances: &Distances,
    linkage: LinkageMethod,
) -> (r: (usize, usize, LinkageDistance))
    requires
        active_clusters@.len() >= 2,
        is_square(distances@),
        forall|p: int| 0 <= p < active_clusters@.len() ==> {
            let c = #[trigger] active_clusters@[p] as int;
            &&& c < cluster_map@.len()
            &&& cluster_map@[c].len() > 0
            &&& cluster_map@[c].len() <= MAX_ITEMS
            &&& leaves_below(cluster_map@[c], distances@.len() as int)
        },
    ensures
        r.0 < r.1 < active_clusters@.len(),
        r.2.wf(),
        r.2.frac() == cmap_link(distances@, linkage, cluster_map@, active_clusters@, r.0 as int, r.1 as int),
        forall|p2: int, q2: int| 0 <= p2 < q2 < active_clusters@.len() ==> {
            &&& frac_le(r.2.frac(), #[trigger] cmap_link(distances@, linkage, cluster_map@, active_clusters@, p2, q2))
            &&& pair_before(p2, q2, r.0 as int, r.1 as int) ==> frac_lt(r.2.frac(), cmap_link(distances@, linkage, cluster_map@, active_clusters@, p2, q2))
        },
{
    let ghost m = distances@;
    let ghost cm = cluster_map@;
    let ghost act = active_clusters@;
    let len = active_clusters.len();
    // candidate pairs in enumeration order: their positions, and their cluster ids
    let mut positions: Vec<(usize, usize)> = Vec::new();
    let mut pairs: Vec<(usize, usize)> = Vec::new();
    let mut p: usize = 0;
    while p < len
        invariant
            act == active_clusters@,
            len == act.len(),
            p <= len,
            positions@.len() == pairs@.len(),
            forall|k: int| 0 <= k < positions@.len() ==> {
                &&& (#[trigger] positions@[k]).0 < positions@[k].1 < len
                &&& positions@[k].0 < p
                &&& pairs@[k] == (act[positions@[k].0 as int], act[positions@[k].1 as int])
            },
            forall|a: int, b: int| 0 <= a < b < positions@.len() ==>
                pair_before((#[trigger] positions@[a]).0 as int, positions@[a].1 as int, (#[trigger] positions@[b]).0 as int, positions@[b].1 as int),
            forall|p2: int, q2: int| 0 <= p2 < q2 < len && p2 < p ==> #[trigger] positions@.contains((p2 as usize, q2 as usize)),
        decreases len - p,
    {
        let mut q: usize = p + 1;
        while q < len
            invariant
                act == active_clusters@,
                len == act.len(),
                p < len,
                p + 1 <= q <= len,
                positions@.len() == pairs@.len(),
                forall|k: int| 0 <= k < positions@.len() ==> {
                    &&& (#[trigger] positions@[k]).0 < positions@[k].1 < len
                    &&& pair_before(positions@[k].0 as int, positions@[k].1 as int, p as int, q as int)
                    &&& pairs@[k] == (act[positions@[k].0 as int], act[positions@[k].1 as int])
                },
                forall|a: int, b: int| 0 <= a < b < positions@.len() ==>
                    pair_before((#[trigger] positions@[a]).0 as int, positions@[a].1 as int, (#[trigger] positions@[b]).0 as int, positions@[b].1 as int),
                forall|p2: int, q2: int| 0 <= p2 < q2 < len && pair_before(p2, q2, p as int, q as int) ==> #[trigger] positions@.contains((p2 as usize, q2 as usize)),
            decreases len - q,
        {
            let ghost before = positions@;
            positions.push((p, q));
            pairs.push((active_clusters[p], active_clusters[q]));
            assert forall|p2: int, q2: int| 0 <= p2 < q2 < len && pair_before(p2, q2, p as int, q as int + 1) implies #[trigger] positions@.contains((p2 as usize, q2 as usize)) by {
                if p2 == p && q2 == q {
                    assert(positions@[before.len() as int] == (p2 as usize, q2 as usize));
                } else {
                    assert(before.contains((p2 as usize, q2 as usize)));
                    let k = choose|k: int| 0 <= k < before.len() && before[k] == (p2 as usize, q2 as usize);
                    assert(positions@[k] == (p2 as usize, q2 as usize));
                }
            }
            q = q + 1;
        }
        p = p + 1;
    }
    assert forall|k: int| 0 <= k < pairs@.len() implies linkable(cm, m, #[trigger] pairs@[k].0, pairs@[k].1) by {
        assert(positions@[k].0 < len && positions@[k].1 < len);
    }
    let dists = par_linkages(&pairs, cluster_map, distances, linkage);
    assert(positions@.contains(((0int) as usize, (1int) as usize)));
    assert(positions@.len() >= 1);
    let mut best: usize = 0;
    let mut k: usize = 1;
    while k < dists.len()
        invariant
            dists@.len() == positions@.len(),
            forall|j: int| 0 <= j < dists@.len() ==> (#[trigger] dists@[j]).wf(),
            1 <= k <= dists@.len(),
            best < k,
            forall|j: int| 0 <= j < k ==> {
                &&& frac_le(dists@[best as int].frac(), (#[trigger] dists@[j]).frac())
                &&& j < best ==> frac_lt(dists@[best as int].frac(), dists@[j].frac())
            },
        decreases dists@.len() - k,
    {
        let ghost old_best = best;
        if dists[k].less_than(&dists[best]) {
            best = k;
            assert forall|j: int| 0 <= j < k + 1 implies {
                &&& frac_le(dists@[best as int].frac(), (#[trigger] dists@[j]).frac())
                &&& j < best ==> frac_lt(dists@[best as int].frac(), dists@[j].frac())
            } by {
                if j < k {
                    lemma_lt_le_trans(dists@[k as int].frac(), dists@[old_best as int].frac(), dists@[j].frac());
                }
            }
        }
        k = k + 1;
    }
    let (bp, bq) = positions[best];
    proof {
        assert forall|p2: int, q2: int| 0 <= p2 < q2 < len implies {
            &&& frac_le(dists@[best as int].frac(), #[trigger] cmap_link(m, linkage, cm, act, p2, q2))
            &&& pair_before(p2, q2, bp as int, bq as int) ==> frac_lt(dists@[best as int].frac(), cmap_link(m, linkage, cm, act, p2, q2))
        } by {
            assert(positions@.contains((p2 as usize, q2 as usize)));
            let j = choose|j: int| 0 <= j < positions@.len() && positions@[j] == (p2 as usize, q2 as usize);
            assert(dists@[j].frac() == cmap_link(m, linkage, cm, act, p2, q2));
            if pair_before(p2, q2, bp as int, bq as int) {
                if j > best as int {
                    assert(pair_before(bp as int, bq as int, p2, q2));
                }
            }
        }
    }
    (bp, bq, dists[best])
}

/// Runs the merge loop over the `n >= 1` items of `distances`: while more
/// than one cluster is open, merges the closest pair into a new cluster.
fn agglomerate(distances: &Distances, linkage: LinkageMethod) -> (ms: Vec<Merge>)
    requires
        is_square(distances@),
        1 <= distances@.len() <= MAX_ITEMS,
    ensures
        agglomerates(distances@, linkage, distances@.len() as int, ms@),
{
    let ghost m = distances@;
    let n = distances.len();
    let ghost ni = n as int;
    let mut cluster_map = ClusterMap::new(n);
    let mut active_clusters: Vec<usize> = Vec::with_capacity(n);
    let mut i: usize = 0;
    while i < n
        invariant
            i <= n,
            active_clusters@ == Seq::new(i as nat, |k: int| k as usize),
        decreases n - i,
    {
        active_clusters.push(i);
        i = i + 1;
        assert(active_clusters@ =~= Seq::new(i as nat, |k: int| k as usize));
    }
    let mut merges: Vec<Merge> = Vec::with_capacity(n - 1);
    let mut next_cid: usize = n;
    assert(active_clusters@ =~= active(ni, merges@));
    assert forall|c: int| 0 <= c < next_cid implies #[trigger] cluster_map@[c] == members(ni, merges@, c) by {}
    while active_clusters.len() > 1
        invariant
            m == distances@,
            ni == n as int,
            is_square(m),
            1 <= n <= MAX_ITEMS,
            m.len() == n,
            valid_prefix(ni, merges@),
            forall|k: int| 0 <= k < merges@.len() ==> #[trigger] greedy_step(m, linkage, ni, merges@, k),
            active_clusters@ == active(ni, merges@),
            next_cid == n + merges@.len(),
            cluster_map@.len() == next_cid,
            forall|c: int| 0 <= c < next_cid ==> #[trigger] cluster_map@[c] == members(ni, merges@, c),
        decreases active_clusters@.len(),
    {
        let ghost ms = merges@;
        let ghost act = active_clusters@;
        let ghost k = ms.len() as int;
        let ghost cm0 = cluster_map@;
        proof {
            lemma_partitioned(ni, ms);
            assert forall|p: int| 0 <= p < act.len() implies {
                let c = #[trigger] act[p] as int;
                &&& c < cluster_map@.len()
                &&& cluster_map@[c].len() > 0
                &&& cluster_map@[c].len() <= MAX_ITEMS
                &&& leaves_below(cluster_map@[c], m.len() as int)
            } by {
                let c = act[p];
                assert(act.contains(c));
                lemma_unique_leaves_len(members(ni, ms, c as int), ni);
            }
        }
        let (bp, bq, best) = find_closest(&active_clusters, &cluster_map, distances, linkage);
        let cid1 = active_clusters[bp];
        let cid2 = active_clusters[bq];
        let new_cid = next_cid;
        next_cid = next_cid + 1;
        let ghost m1 = cluster_map@[cid1 as int];
        let ghost m2 = cluster_map@[cid2 as int];
        let mut merged_cids: Vec<usize> = Vec::new();
        let part1 = cluster_map.get_cluster(cid1);
        let mut j: usize = 0;
        while j < part1.len()
            invariant
                j <= part1@.len(),
                part1@ == m1,
                merged_cids@ == m1.take(j as int),
            decreases part1@.len() - j,
        {
            merged_cids.push(part1[j]);
            j = j + 1;
            assert(merged_cids@ =~= m1.take(j as int));
        }
        let part2 = cluster_map.get_cluster(cid2);
        let mut j: usize = 0;
        while j < part2.len()
            invariant
                j <= part2@.len(),
                part2@ == m2,
                merged_cids@ == m1 + m2.take(j as int),
            decreases part2@.len() - j,
        {
            merged_cids.push(part2[j]);
            j = j + 1;
            assert(merged_cids@ =~= m1 + m2.take(j as int));
        }
        assert(m1 =~= m1.take(m1.len() as int));
        assert(m2 =~= m2.take(m2.len() as int));
        if new_cid >= cluster_map.len() {
            cluster_map.add_new_cid(new_cid + 1);
        }
        let ghost cm1 = cluster_map@;
        assert(cm1.len() == next_cid);
        assert forall|c: int| 0 <= c < new_cid implies #[trigger] cm1[c] == cm0[c] by {
            assert(cm1.take(new_cid as int)[c] == cm1[c]);
        }
        cluster_map.replace_cid_vals(new_cid, merged_cids.as_slice());
        assert(cluster_map@[new_cid as int] == m1 + m2);
        let e = Merge { cid1, cid2, dist: best, new_cid };
        merges.push(e);
        let mut rest: Vec<usize> = Vec::with_capacity(active_clusters.len());
        rest.push(new_cid);
        let mut j: usize = 0;
        assert(rest@ =~= seq![new_cid] + remove_two(act.take(0), cid1, cid2));
        while j < active_clusters.len()
            invariant
                j <= act.len(),
                act == active_clusters@,
                rest@ == seq![new_cid] + remove_two(act.take(j as int), cid1, cid2),
            decreases act.len() - j,
        {
            let c = active_clusters[j];
            let ghost before = rest@;
            if c != cid1 && c != cid2 {
                rest.push(c);
            }
            j = j + 1;
            assert(act.take(j as int).drop_last() =~= act.take(j as int - 1));
            assert(rest@ =~= seq![new_cid] + remove_two(act.take(j as int), cid1, cid2));
        }
        assert(act.take(act.len() as int) =~= act);
        active_clusters = rest;
        proof {
            let ms2 = merges@;
            assert(ms2 == ms.push(e));
            assert(ms2.drop_last() =~= ms);
            assert(ms2.take(k) =~= ms);
            lemma_remove_two(act, cid1, cid2);
            assert(act.no_duplicates());
            assert(cid1 != cid2) by {
                assert(act[bp as int] != act[bq as int]);
            }
            assert(act.contains(cid1) && act.contains(cid2)) by {
                assert(act[bp as int] == cid1 && act[bq as int] == cid2);
            }
            assert(valid_step(ni, ms2, k));
            assert forall|j: int| 0 <= j < ms2.len() implies #[trigger] valid_step(ni, ms2, j) by {
                if j < k {
                    assert(ms2.take(j) =~= ms.take(j));
                    assert(valid_step(ni, ms, j));
                }
            }
            assert(act.len() == ni - k);
            assert(valid_prefix(ni, ms2));
            // memberships
            assert forall|c: int| 0 <= c < next_cid implies #[trigger] cluster_map@[c] == members(ni, ms2, c) by {
                if c < new_cid {
                    assert(cm1[c] == cm0[c]);
                    lemma_members_extend(ni, ms, e, c);
                } else {
                    assert(act.contains(cid1) && act.contains(cid2));
                    lemma_members_extend(ni, ms, e, cid1 as int);
                    lemma_members_extend(ni, ms, e, cid2 as int);
                    assert(ms2[c - ni] == e);
                }
            }
            // the new merge is the greedy choice
            assert forall|p2: int, q2: int| 0 <= p2 < q2 < act.len() implies
                #[trigger] link_at(m, linkage, ni, ms, p2, q2) == cmap_link(m, linkage, cm0, act, p2, q2) by {
                assert(act.contains(act[p2]) && act.contains(act[q2]));
            }
            assert(closest_at(m, linkage, ni, ms2.take(k), ms2[k], bp as int, bq as int));
            assert(greedy_step(m, linkage, ni, ms2, k));
            assert forall|j: int| 0 <= j < ms2.len() implies #[trigger] greedy_step(m, linkage, ni, ms2, j) by {
                if j < k {
                    assert(greedy_step(m, linkage, ni, ms, j));
                    assert(ms2.take(j) =~= ms.take(j));
                    assert(ms2[j] == ms[j]);
                }
            }
        }
    }
    proof {
        let ms = merges@;
        lemma_partitioned(ni, ms);
    }
    merges
}

/// Why a matrix cannot be clustered.
#[derive(Debug, Clone, Copy, PartialEq, Eq, Structural)]
pub enum ClusterError {
    /// The matrix is not square.
    InvalidMatrix,
}

/// The rows of `rows` as sequences.
pub open spec fn matrix_view(rows: Seq<Vec<u32>>) -> Seq<Seq<u32>> {
    rows.map_values(|r: Vec<u32>| r@)
}

/// Agglomerative clustering of the items of the square distance matrix
/// `dist_mat` under `linkage`. Fails with `InvalidMatrix` exactly when some row
/// does not have one entry per row. Otherwise the merge sequence is the one
/// that repeatedly joins the closest pair of open clusters (the first pair in
/// enumeration order among equally close ones), and the tree is built from it.
pub fn hierarchical_clustering(
    dist_mat: &[Vec<u32>],
    linkage: LinkageMethod,
) -> (r: Result<ClusterHierarchy, ClusterError>)
    requires
        dist_mat@.len() <= MAX_ITEMS,
    ensures
        r is Err <==> !is_square(matrix_view(dist_mat@)),
        r is Err ==> r == Err::<ClusterHierarchy, ClusterError>(ClusterError::InvalidMatrix),
        r matches Ok(h) ==> {
            let n = dist_mat@.len() as int;
            &&& agglomerates(matrix_view(dist_mat@), linkage, n, h.merges@)
            &&& hierarchy_of(h, n, h.merges@)
            &&& h.wf()
            &&& n >= 1 ==> is_permutation(leaf_seq(h.tree->Some_0), n)
        },
{
    let ghost m = matrix_view(dist_mat@);
    let n = dist_mat.len();
    let mut i: usize = 0;
    while i < n
        invariant
            n == dist_mat@.len(),
            m == matrix_view(dist_mat@),
            i <= n,
            forall|r: int| 0 <= r < i ==> #[trigger] m[r].len() == n,
        decreases n - i,
    {
        if dist_mat[i].len() != n {
            assert(m[i as int].len() != m.len());
            return Err(ClusterError::InvalidMatrix);
        }
        i = i + 1;
    }
    assert(is_square(m));
    if n == 0 {
        let empty: Vec<Merge> = Vec::new();
        return Ok(ClusterHierarchy::new(empty.as_slice(), 0));
    }
    let dist = Distances::new(dist_mat);
    assert(dist@ =~= m);
    let merges = agglomerate(&dist, linkage);
    let hierarchy = ClusterHierarchy::new(merges.as_slice(), n);
    proof {
        lemma_leaf_order_of_merges(n as int, merges@);
    }
    Ok(hierarchy)
}

/// Clustering is deterministic: one matrix and one linkage method admit
/// exactly one merge sequence.
pub proof fn lemma_agglomerates_unique(
    m: Seq<Seq<u32>>,
    method: LinkageMethod,
    n: int,
    ms1: Seq<Merge>,
    ms2: Seq<Merge>,
)
    requires
        agglomerates(m, method, n, ms1),
        agglomerates(m, method, n, ms2),
    ensures
        ms1 == ms2,
{
    lemma_prefix_unique(m, method, n, ms1, ms2, ms1.len() as int);
    assert(ms1.take(ms1.len() as int) =~= ms1);
    assert(ms2.take(ms2.len() as int) =~= ms2);
}

proof fn lemma_prefix_unique(
    m: Seq<Seq<u32>>,
    method: LinkageMethod,
    n: int,
    ms1: Seq<Merge>,
    ms2: Seq<Merge>,
    k: int,
)
    requires
        agglomerates(m, method, n, ms1),
        agglomerates(m, method, n, ms2),
        0 <= k <= ms1.len(),
    ensures
        ms1.take(k) == ms2.take(k),
    decreases k,
{
    if k > 0 {
        let j = k - 1;
        lemma_prefix_unique(m, method, n, ms1, ms2, j);
        let pre = ms1.take(j);
        assert(ms2.take(j) == pre);
        assert(greedy_step(m, method, n, ms1, j));
        assert(greedy_step(m, method, n, ms2, j));
        let (p1, q1) = choose|p: int, q: int| #[trigger] closest_at(m, method, n, ms1.take(j), ms1[j], p, q);
        let (p2, q2) = choose|p: int, q: int| #[trigger] closest_at(m, method, n, ms2.take(j), ms2[j], p, q);
        let e1 = ms1[j];
        let e2 = ms2[j];
        let l1 = link_at(m, method, n, pre, p1, q1);
        let l2 = link_at(m, method, n, pre, p2, q2);
        if pair_before(p1, q1, p2, q2) {
            assert(frac_lt(e2.dist.frac(), l1));
            assert(frac_le(e1.dist.frac(), l2));
            assert(false);
        } else if pair_before(p2, q2, p1, q1) {
            assert(frac_lt(e1.dist.frac(), l2));
            assert(frac_le(e2.dist.frac(), l1));
            assert(false);
        }
        assert(p1 == p2 && q1 == q2);
        assert(valid_step(n, ms1, j) && valid_step(n, ms2, j));
        assert(e1 == e2);
        assert(ms1.take(k) =~= pre.push(e1));
        assert(ms2.take(k) =~= pre.push(e2));
    }
}

/// A merge sequence over `n` items has `max(n - 1, 0)` merges, and merge `k`
/// creates cluster id `n + k`: the new ids are `n, n + 1, ..., 2n - 2` in
/// increasing order.
pub proof fn lemma_merge_ids(m: Seq<Seq<u32>>, method: LinkageMethod, n: int, ms: Seq<Merge>)
    requires
        agglomerates(m, method, n, ms),
    ensures
        ms.len() == if n <= 1 { 0 } else { n - 1 },
        forall|k: int| 0 <= k < ms.len() ==> #[trigger] ms[k].new_cid == n + k,
        forall|j: int, k: int| 0 <= j < k < ms.len() ==> #[trigger] ms[j].new_cid < #[trigger] ms[k].new_cid,
{
    assert forall|k: int| 0 <= k < ms.len() implies #[trigger] ms[k].new_cid == n + k by {
        assert(valid_step(n, ms, k));
    }
}

} // verus!
