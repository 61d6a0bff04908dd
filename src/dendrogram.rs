use vstd::prelude::*;

use crate::linkage::LinkageDistance;
use crate::merges::{
    active, remove_two, ids_ordered, is_permutation, lemma_ids_ordered, lemma_remove_two, lemma_root_active,
    lemma_root_permutation, members, root_id,
    valid_merges, valid_step, Merge,
};

verus! {

/// A node of the merge tree: cluster id, the distance at which the cluster
/// formed (zero for leaves), and both children or neither.
#[derive(Debug)]
pub struct DendrogramNode {
    pub cid: usize,
    pub distance: LinkageDistance,
    pub left: Option<Box<DendrogramNode>>,
    pub right: Option<Box<DendrogramNode>>,
}

/// The distance of a leaf.
pub open spec fn zero_distance() -> LinkageDistance {
    LinkageDistance { total: 0, count: 1 }
}

/// The leaf ids of `node`, left subtree before right subtree.
pub open spec fn leaf_seq(node: DendrogramNode) -> Seq<usize>
    decreases node,
{
    if node.left.is_none() && node.right.is_none() {
        seq![node.cid]
    } else {
        let l = match node.left {
            Some(b) => leaf_seq(*b),
            None => Seq::empty(),
        };
        let r = match node.right {
            Some(b) => leaf_seq(*b),
            None => Seq::empty(),
        };
        l + r
    }
}

/// The subtree of cluster `c` after the merges `ms` over `n` items: a leaf for
/// `c < n`, else the merge that created `c` over the subtrees of its parts.
pub open spec fn tree_of(n: int, ms: Seq<Merge>, c: int) -> DendrogramNode
    decreases c,
{
    if n <= c < n + ms.len() && 0 <= n && (ms[c - n].cid1 as int) < c && (ms[c - n].cid2 as int) < c {
        let e = ms[c - n];
        DendrogramNode {
            cid: c as usize,
            distance: e.dist,
            left: Some(Box::new(tree_of(n, ms, e.cid1 as int))),
            right: Some(Box::new(tree_of(n, ms, e.cid2 as int))),
        }
    } else {
        DendrogramNode { cid: c as usize, distance: zero_distance(), left: None, right: None }
    }
}

/// The leaves of the tree of a cluster are its members, in order.
pub proof fn lemma_tree_leaves(n: int, ms: Seq<Merge>, c: int)
    requires
        0 <= c < n + ms.len(),
        0 <= n <= usize::MAX,
        ids_ordered(n, ms),
    ensures
        leaf_seq(tree_of(n, ms, c)) == members(n, ms, c),
    decreases c,
{
    if n <= c {
        let e = ms[c - n];
        assert((e.cid1 as int) < c && (e.cid2 as int) < c);
        if (e.cid1 as int) < c && (e.cid2 as int) < c {
            lemma_tree_leaves(n, ms, e.cid1 as int);
            lemma_tree_leaves(n, ms, e.cid2 as int);
        }
    }
}

proof fn lemma_tree_extend(n: int, ms: Seq<Merge>, e: Merge, c: int)
    requires
        0 <= n,
        c < n + ms.len(),
    ensures
        tree_of(n, ms.push(e), c) == tree_of(n, ms, c),
    decreases c,
{
    if n <= c {
        let f = ms[c - n];
        assert(ms.push(e)[c - n] == f);
        if (f.cid1 as int) < c && (f.cid2 as int) < c {
            lemma_tree_extend(n, ms, e, f.cid1 as int);
            lemma_tree_extend(n, ms, e, f.cid2 as int);
        }
    }
}

impl DendrogramNode {
    pub fn new(
        cid: usize,
        dist: LinkageDistance,
        left: Option<Box<DendrogramNode>>,
        right: Option<Box<DendrogramNode>>,
    ) -> (r: DendrogramNode)
        ensures
            r == (DendrogramNode { cid, distance: dist, left, right }),
    {
        DendrogramNode { cid, distance: dist, left, right }
    }
}

impl DendrogramNode {
    /// A deep copy of the subtree rooted here.
    pub fn duplicate(&self) -> (r: DendrogramNode)
        ensures
            r == *self,
        decreases self,
    {
        let left = match &self.left {
            Some(l) => Some(Box::new(l.duplicate())),
            None => None,
        };
        let right = match &self.right {
            Some(b) => Some(Box::new(b.duplicate())),
            None => None,
        };
        DendrogramNode { cid: self.cid, distance: self.distance, left, right }
    }
}

/// The leaf ids of `root`, in a left-then-right depth-first traversal.
pub fn get_leaf_order(root: &DendrogramNode) -> (r: Vec<usize>)
    ensures
        r@ == leaf_seq(*root),
    decreases root,
{
    if root.left.is_none() && root.right.is_none() {
        return vec![root.cid];
    }
    let mut orders: Vec<usize> = Vec::new();
    match &root.left {
        Some(left) => {
            let mut part = get_leaf_order(left);
            orders.append(&mut part);
        },
        None => {},
    }
    match &root.right {
        Some(right) => {
            let mut part = get_leaf_order(right);
            orders.append(&mut part);
        },
        None => {},
    }
    orders
}

/// The result of agglomerative clustering: the merge sequence, the number of
/// items, and the merge tree (absent when there are no items).
#[derive(Debug)]
pub struct ClusterHierarchy {
    pub merges: Vec<Merge>,
    pub original_n: usize,
    pub tree: Option<DendrogramNode>,
}

impl ClusterHierarchy {
    /// The merges form a complete merge sequence over `original_n` items, and
    /// the tree is the one they describe.
    pub open spec fn wf(&self) -> bool {
        &&& valid_merges(self.original_n as int, self.merges@)
        &&& hierarchy_of(*self, self.original_n as int, self.merges@)
    }
}

/// `h` holds the merge sequence `ms` over `n` items and the tree it describes.
pub open spec fn hierarchy_of(h: ClusterHierarchy, n: int, ms: Seq<Merge>) -> bool {
    &&& h.merges@ == ms
    &&& h.original_n == n
    &&& h.tree == if n == 0 { None } else { Some(tree_of(n, ms, root_id(ms))) }
}

impl ClusterHierarchy {
    /// The hierarchy of the complete merge sequence `merges` over `n` items.
    pub fn new(merges: &[Merge], n: usize) -> (r: ClusterHierarchy)
        requires
            valid_merges(n as int, merges@),
        ensures
            hierarchy_of(r, n as int, merges@),
            r.wf(),
    {
        let mut merge_vec: Vec<Merge> = Vec::with_capacity(merges.len());
        let mut i: usize = 0;
        while i < merges.len()
            invariant
                i <= merges@.len(),
                merge_vec@ == merges@.take(i as int),
            decreases merges@.len() - i,
        {
            merge_vec.push(merges[i]);
            i = i + 1;
            assert(merge_vec@ =~= merges@.take(i as int));
        }
        assert(merges@.take(merges@.len() as int) =~= merges@);
        let mut cluster = ClusterHierarchy { merges: merge_vec, original_n: n, tree: None };
        if n > 0 {
            let tree = build_tree(&cluster);
            cluster.tree = Some(tree);
        }
        cluster
    }

    /// Number of original items.
    pub fn leaf_size(&self) -> (r: usize)
        ensures
            r == self.original_n,
    {
        self.original_n
    }

    /// The leaf ids in a left-then-right depth-first traversal of the tree;
    /// empty when there is no tree.
    pub fn leaf_ordering(&self) -> (r: Vec<usize>)
        ensures
            r@ == match self.tree {
                Some(root) => leaf_seq(root),
                None => Seq::<usize>::empty(),
            },
    {
        match &self.tree {
            Some(tree) => get_leaf_order(tree),
            None => Vec::new(),
        }
    }

    /// A copy of the tree.
    pub fn get_raw_nodes(&self) -> (r: Option<DendrogramNode>)
        ensures
            r == self.tree,
    {
        match &self.tree {
            Some(tree) => Some(tree.duplicate()),
            None => None,
        }
    }

    /// The merge sequence.
    pub fn merge_sequence(&self) -> (r: &Vec<Merge>)
        ensures
            r@ == self.merges@,
    {
        &self.merges
    }
}

/// Takes the node at `i` out of the arena, leaving `None` there.
fn take_node(nodes: &mut Vec<Option<DendrogramNode>>, i: usize) -> (r: Option<DendrogramNode>)
    requires
        i < old(nodes)@.len(),
    ensures
        r == old(nodes)@[i as int],
        final(nodes)@ == old(nodes)@.update(i as int, None),
{
    let mut slot: Option<DendrogramNode> = None;
    std::mem::swap(&mut nodes[i], &mut slot);
    slot
}

/// Replays the merges into the merge tree and returns its root.
pub fn build_tree(cluster: &ClusterHierarchy) -> (r: DendrogramNode)
    requires
        valid_merges(cluster.original_n as int, cluster.merges@),
        cluster.original_n >= 1,
    ensures
        r == tree_of(cluster.original_n as int, cluster.merges@, root_id(cluster.merges@)),
{
    let n = cluster.original_n;
    let ghost ni = n as int;
    let ghost ms = cluster.merges@;
    proof {
        lemma_ids_ordered(ni, ms);
    }
    let mut nodes: Vec<Option<DendrogramNode>> = Vec::with_capacity(n);
    let mut i: usize = 0;
    while i < n
        invariant
            i <= n,
            nodes@.len() == i,
            forall|c: int| 0 <= c < i ==> #[trigger] nodes@[c] == Some(tree_of(ni, Seq::<Merge>::empty(), c)),
        decreases n - i,
    {
        nodes.push(Some(DendrogramNode::new(i, LinkageDistance { total: 0, count: 1 }, None, None)));
        i = i + 1;
    }
    assert(ms.take(0) =~= Seq::<Merge>::empty());
    assert forall|c: int| 0 <= c < n implies #[trigger] active(ni, ms.take(0)).contains(c as usize) by {
        assert(active(ni, ms.take(0))[c] == c as usize);
    }
    assert forall|c: int| 0 <= c < n implies #[trigger] nodes@[c] == Some(tree_of(ni, ms.take(0), c)) by {
        assert(nodes@[c] == Some(tree_of(ni, Seq::<Merge>::empty(), c)));
    }
    let mut k: usize = 0;
    while k < cluster.merges.len()
        invariant
            ni == n as int,
            ms == cluster.merges@,
            valid_merges(ni, ms),
            ids_ordered(ni, ms),
            k <= ms.len(),
            nodes@.len() == n + k,
            forall|c: int| 0 <= c < n + k ==> (#[trigger] nodes@[c] is Some <==> active(ni, ms.take(k as int)).contains(c as usize)),
            forall|c: int| 0 <= c < n + k && #[trigger] nodes@[c] is Some ==> nodes@[c] == Some(tree_of(ni, ms.take(k as int), c)),
        decreases ms.len() - k,
    {
        let merge = cluster.merges[k];
        let ghost pre = ms.take(k as int);
        let ghost act = active(ni, pre);
        proof {
            assert(valid_step(ni, ms, k as int));
            assert(ms.take(k as int + 1) =~= pre.push(merge));
            lemma_remove_two(act, merge.cid1, merge.cid2);
            assert(act.contains(merge.cid1) && act.contains(merge.cid2));
        }
        let left_node = take_node(&mut nodes, merge.cid1).unwrap();
        let right_node = take_node(&mut nodes, merge.cid2).unwrap();
        let new_node = DendrogramNode::new(merge.new_cid, merge.dist, Some(Box::new(left_node)), Some(Box::new(right_node)));
        nodes.push(Some(new_node));
        proof {
            let post = ms.take(k as int + 1);
            lemma_tree_extend(ni, pre, merge, merge.cid1 as int);
            lemma_tree_extend(ni, pre, merge, merge.cid2 as int);
            assert(post[k as int] == merge);
            assert(new_node == tree_of(ni, post, ni + k));
            assert(post.drop_last() =~= pre);
            assert forall|c: int| 0 <= c < n + k + 1 implies (#[trigger] nodes@[c] is Some <==> active(ni, post).contains(c as usize)) by {
                if c == n + k {
                    assert(active(ni, post)[0] == merge.new_cid);
                } else {
                    let r = remove_two(act, merge.cid1, merge.cid2);
                    assert(active(ni, post) == seq![merge.new_cid] + r);
                    if r.contains(c as usize) {
                        let j = choose|j: int| 0 <= j < r.len() && r[j] == c as usize;
                        assert(active(ni, post)[j + 1] == c as usize);
                    }
                    if active(ni, post).contains(c as usize) {
                        let j = choose|j: int| 0 <= j < active(ni, post).len() && active(ni, post)[j] == c as usize;
                        if j > 0 {
                            assert(r[j - 1] == c as usize);
                        }
                    }
                }
            }
            assert forall|c: int| 0 <= c < n + k + 1 && #[trigger] nodes@[c] is Some implies nodes@[c] == Some(tree_of(ni, post, c)) by {
                if c < n + k {
                    lemma_tree_extend(ni, pre, merge, c);
                }
            }
        }
        k = k + 1;
    }
    proof {
        lemma_root_active(ni, ms);
        assert(ms.take(ms.len() as int) =~= ms);
        assert(active(ni, ms).contains(root_id(ms) as usize)) by {
            assert(active(ni, ms)[0] == root_id(ms) as usize);
        }
    }
    let root: usize = if cluster.merges.len() == 0 { 0 } else { cluster.merges[cluster.merges.len() - 1].new_cid };
    take_node(&mut nodes, root).unwrap()
}

/// Building the tree of a complete merge sequence over `n >= 1` items and
/// flattening it depth-first gives back the leaves in the order in which the
/// merges concatenated them, which holds each of `0..n` once. The order is a
/// function of the merge sequence alone, so reading it again gives the same.
pub proof fn lemma_leaf_order_of_merges(n: int, ms: Seq<Merge>)
    requires
        valid_merges(n, ms),
        n >= 1,
    ensures
        leaf_seq(tree_of(n, ms, root_id(ms))) == members(n, ms, root_id(ms)),
        is_permutation(leaf_seq(tree_of(n, ms, root_id(ms))), n),
{
    lemma_root_active(n, ms);
    lemma_ids_ordered(n, ms);
    lemma_tree_leaves(n, ms, root_id(ms));
    lemma_root_permutation(n, ms);
}

} // verus!
