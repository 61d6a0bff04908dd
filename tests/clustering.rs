use cp_hierarchical_clustering::agglomerative::hierarchical_clustering;
use cp_hierarchical_clustering::cluster_map::{ClusterMap, Distances};
use cp_hierarchical_clustering::linkage::{calc_dist, LinkageDistance, LinkageMethod};
use cp_hierarchical_clustering::merges::Merge;
use cp_hierarchical_clustering::ClusterError;

fn three_items() -> Vec<Vec<u32>> {
    vec![vec![0, 1, 5], vec![1, 0, 4], vec![5, 4, 0]]
}

fn five_items() -> Vec<Vec<u32>> {
    vec![
        vec![0, 9, 3, 7, 8],
        vec![9, 0, 6, 2, 5],
        vec![3, 6, 0, 8, 4],
        vec![7, 2, 8, 0, 6],
        vec![8, 5, 4, 6, 0],
    ]
}

fn merge(cid1: usize, cid2: usize, total: u128, count: u64, new_cid: usize) -> Merge {
    Merge { cid1, cid2, dist: LinkageDistance { total, count }, new_cid }
}

fn is_permutation(order: &[usize], n: usize) -> bool {
    let mut seen = vec![false; n];
    for &leaf in order {
        if leaf >= n || seen[leaf] {
            return false;
        }
        seen[leaf] = true;
    }
    order.len() == n
}

#[test]
fn three_items_single_linkage() {
    let h = hierarchical_clustering(&three_items(), LinkageMethod::Single).unwrap();
    assert_eq!(h.merges, vec![merge(0, 1, 1, 1, 3), merge(3, 2, 4, 1, 4)]);
    assert_eq!(h.leaf_size(), 3);
    assert_eq!(h.leaf_ordering(), vec![0, 1, 2]);
}

#[test]
fn three_items_complete_linkage() {
    let h = hierarchical_clustering(&three_items(), LinkageMethod::Complete).unwrap();
    assert_eq!(h.merges, vec![merge(0, 1, 1, 1, 3), merge(3, 2, 5, 1, 4)]);
}

#[test]
fn three_items_average_linkage() {
    let h = hierarchical_clustering(&three_items(), LinkageMethod::Average).unwrap();
    assert_eq!(h.merges, vec![merge(0, 1, 1, 1, 3), merge(3, 2, 9, 2, 4)]);
}

#[test]
fn one_item_has_no_merges() {
    let h = hierarchical_clustering(&[vec![0]], LinkageMethod::Single).unwrap();
    assert!(h.merge_sequence().is_empty());
    assert_eq!(h.leaf_size(), 1);
    assert_eq!(h.leaf_ordering(), vec![0]);
    let root = h.get_raw_nodes().unwrap();
    assert_eq!(root.cid, 0);
    assert!(root.left.is_none() && root.right.is_none());
}

#[test]
fn no_items_gives_empty_result() {
    let h = hierarchical_clustering(&[], LinkageMethod::Average).unwrap();
    assert!(h.merge_sequence().is_empty());
    assert_eq!(h.leaf_size(), 0);
    assert!(h.leaf_ordering().is_empty());
    assert!(h.get_raw_nodes().is_none());
}

#[test]
fn merge_count_and_new_ids() {
    for method in [LinkageMethod::Single, LinkageMethod::Complete, LinkageMethod::Average] {
        let h = hierarchical_clustering(&five_items(), method).unwrap();
        assert_eq!(h.merges.len(), 4);
        let ids: Vec<usize> = h.merges.iter().map(|m| m.new_cid).collect();
        assert_eq!(ids, vec![5, 6, 7, 8]);
    }
}

#[test]
fn five_items_single_linkage_sequence() {
    let h = hierarchical_clustering(&five_items(), LinkageMethod::Single).unwrap();
    assert_eq!(
        h.merges,
        vec![
            merge(1, 3, 2, 1, 5),
            merge(0, 2, 3, 1, 6),
            merge(6, 4, 4, 1, 7),
            merge(7, 5, 5, 1, 8),
        ]
    );
    assert_eq!(h.leaf_ordering(), vec![0, 2, 4, 1, 3]);
}

#[test]
fn leaf_ordering_is_permutation() {
    for method in [LinkageMethod::Single, LinkageMethod::Complete, LinkageMethod::Average] {
        let h = hierarchical_clustering(&five_items(), method).unwrap();
        assert!(is_permutation(&h.leaf_ordering(), 5));
    }
}

#[test]
fn repeated_runs_agree() {
    let a = hierarchical_clustering(&five_items(), LinkageMethod::Average).unwrap();
    let b = hierarchical_clustering(&five_items(), LinkageMethod::Average).unwrap();
    assert_eq!(a.merges, b.merges);
    assert_eq!(a.leaf_ordering(), b.leaf_ordering());
}

#[test]
fn leaf_ordering_is_stable_across_reads() {
    let h = hierarchical_clustering(&five_items(), LinkageMethod::Complete).unwrap();
    let first = h.leaf_ordering();
    let second = h.leaf_ordering();
    assert_eq!(first, second);
    let root = h.get_raw_nodes().unwrap();
    assert_eq!(root.cid, 8);
}

#[test]
fn equal_distances_pick_first_pair() {
    let m = vec![vec![0, 7, 7, 7], vec![7, 0, 7, 7], vec![7, 7, 0, 7], vec![7, 7, 7, 0]];
    let h = hierarchical_clustering(&m, LinkageMethod::Single).unwrap();
    assert_eq!(
        h.merges,
        vec![merge(0, 1, 7, 1, 4), merge(4, 2, 7, 1, 5), merge(5, 3, 7, 1, 6)]
    );
}

#[test]
fn non_square_matrix_is_rejected() {
    let m = vec![vec![0, 1], vec![1]];
    let r = hierarchical_clustering(&m, LinkageMethod::Single);
    assert_eq!(r.err(), Some(ClusterError::InvalidMatrix));
    let wide = vec![vec![0, 1, 2], vec![1, 0, 2]];
    assert!(hierarchical_clustering(&wide, LinkageMethod::Average).is_err());
}

#[test]
fn linkage_ordering_on_clusters() {
    let dist = Distances::new(&five_items());
    let mut cmap = ClusterMap::new(5);
    cmap.add_new_cid(7);
    cmap.replace_cid_vals(5, &[0, 2]);
    cmap.replace_cid_vals(6, &[1, 3, 4]);
    let s = calc_dist(5, 6, &cmap, &dist, LinkageMethod::Single);
    let a = calc_dist(5, 6, &cmap, &dist, LinkageMethod::Average);
    let c = calc_dist(5, 6, &cmap, &dist, LinkageMethod::Complete);
    assert_eq!(s, LinkageDistance { total: 4, count: 1 });
    assert_eq!(a, LinkageDistance { total: 9 + 7 + 8 + 6 + 8 + 4, count: 6 });
    assert_eq!(c, LinkageDistance { total: 9, count: 1 });
    assert!(!a.less_than(&s));
    assert!(!c.less_than(&a));
    assert!(s.less_than(&a) && a.less_than(&c));
}

#[test]
fn cluster_map_operations() {
    let mut cmap = ClusterMap::new(3);
    assert_eq!(cmap.len(), 3);
    assert_eq!(cmap.get_cluster(2), &vec![2]);
    cmap.add_new_cid(5);
    assert_eq!(cmap.len(), 5);
    assert!(cmap.get_cluster(4).is_empty());
    cmap.replace_cid_vals(3, &[0, 2]);
    assert_eq!(cmap.get_cluster(3), &vec![0, 2]);
    cmap.add_new_cid(2);
    assert_eq!(cmap.len(), 5);
    assert_eq!(cmap.get_cluster(3), &vec![0, 2]);
}

#[test]
fn distances_copy_entries() {
    let d = Distances::new(&three_items());
    assert_eq!(d.len(), 3);
    assert_eq!(*d.get_distances(0, 2), 5);
    assert_eq!(*d.get_distances(2, 1), 4);
}
