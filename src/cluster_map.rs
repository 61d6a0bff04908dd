use vstd::prelude::*;

verus! {

/// For every cluster id, the original leaf indices that the cluster holds.
/// Ids below the item count are the leaves themselves; larger ids are the
/// clusters created by merging, and their entries are kept after they merge on.
#[derive(Debug, Clone)]
pub struct ClusterMap {
    cluster_map: Vec<Vec<usize>>,
}

impl View for ClusterMap {
    type V = Seq<Seq<usize>>;

    closed spec fn view(&self) -> Seq<Seq<usize>> {
        self.cluster_map@.map_values(|v: Vec<usize>| v@)
    }
}

impl ClusterMap {
    /// One singleton cluster `[i]` for every `i < n_items`.
    pub fn new(n_items: usize) -> (r: ClusterMap)
        ensures
            r@.len() == n_items,
            forall|i: int| 0 <= i < n_items ==> #[trigger] r@[i] == seq![i as usize],
    {
        let mut cluster_map: Vec<Vec<usize>> = Vec::with_capacity(n_items);
        let mut i: usize = 0;
        while i < n_items
            invariant
                i <= n_items,
                cluster_map@.len() == i,
                forall|k: int| 0 <= k < i ==> (#[trigger] cluster_map@[k])@ == seq![k as usize],
            decreases n_items - i,
        {
            let single: Vec<usize> = vec![i];
            cluster_map.push(single);
            i = i + 1;
        }
        let r = ClusterMap { cluster_map };
        assert forall|k: int| 0 <= k < n_items implies #[trigger] r@[k] == seq![k as usize] by {
            assert(r.cluster_map@[k]@ == seq![k as usize]);
        }
        r
    }

    /// The members of cluster `cid`.
    pub fn get_cluster(&self, cid: usize) -> (r: &Vec<usize>)
        requires
            cid < self@.len(),
        ensures
            r@ == self@[cid as int],
    {
        &self.cluster_map[cid]
    }

    /// Number of cluster ids that have an entry.
    pub fn len(&self) -> (r: usize)
        ensures
            r == self@.len(),
    {
        self.cluster_map.len()
    }

    /// Makes `values` the members of cluster `cid`.
    pub fn replace_cid_vals(&mut self, cid: usize, values: &[usize])
        requires
            cid < old(self)@.len(),
        ensures
            final(self)@ == old(self)@.update(cid as int, values@),
    {
        let mut copy: Vec<usize> = Vec::with_capacity(values.len());
        let mut i: usize = 0;
        while i < values.len()
            invariant
                i <= values@.len(),
                copy@ == values@.take(i as int),
            decreases values@.len() - i,
        {
            copy.push(values[i]);
            i = i + 1;
            assert(copy@ == values@.take(i as int));
        }
        assert(copy@ == values@);
        self.cluster_map[cid] = copy;
        assert(self@ =~= old(self)@.update(cid as int, values@));
    }

    /// Grows the map to `cid` entries, the new ones empty. Entries are never
    /// dropped: with `cid` at most the current length nothing changes.
    pub fn add_new_cid(&mut self, cid: usize)
        ensures
            cid <= old(self)@.len() ==> final(self)@ == old(self)@,
            cid > old(self)@.len() ==> final(self)@.len() == cid
                && final(self)@.take(old(self)@.len() as int) == old(self)@
                && forall|k: int| old(self)@.len() <= k < cid ==> #[trigger] final(self)@[k] == Seq::<usize>::empty(),
    {
        let ghost before = self@;
        while self.cluster_map.len() < cid
            invariant
                before == old(self)@,
                cid <= before.len() ==> self@ == before,
                self@.len() >= before.len(),
                cid > before.len() ==> self@.len() <= cid,
                self@.take(before.len() as int) == before,
                forall|k: int| before.len() <= k < self@.len() ==> #[trigger] self@[k] == Seq::<usize>::empty(),
            decreases cid - self.cluster_map@.len(),
        {
            let ghost prev = self@;
            let empty: Vec<usize> = Vec::new();
            assert(empty@ == Seq::<usize>::empty());
            self.cluster_map.push(empty);
            assert(self@ =~= prev.push(Seq::<usize>::empty()));
            assert(self@.take(before.len() as int) =~= before);
        }
    }
}

/// A dense matrix of non-negative distances between items, in fixed point.
#[derive(Debug, Clone)]
pub struct Distances {
    distances: Vec<Vec<u32>>,
}

impl View for Distances {
    type V = Seq<Seq<u32>>;

    closed spec fn view(&self) -> Seq<Seq<u32>> {
        self.distances@.map_values(|v: Vec<u32>| v@)
    }
}

impl Distances {
    /// A copy of the rows of `dists`.
    pub fn new(dists: &[Vec<u32>]) -> (r: Distances)
        ensures
            r@.len() == dists@.len(),
            forall|i: int| 0 <= i < dists@.len() ==> #[trigger] r@[i] == dists@[i]@,
    {
        let mut distances: Vec<Vec<u32>> = Vec::with_capacity(dists.len());
        let mut i: usize = 0;
        while i < dists.len()
            invariant
                i <= dists@.len(),
                distances@.len() == i,
                forall|k: int| 0 <= k < i ==> (#[trigger] distances@[k])@ == dists@[k]@,
            decreases dists@.len() - i,
        {
            let row = &dists[i];
            let mut copy: Vec<u32> = Vec::with_capacity(row.len());
            let mut j: usize = 0;
            while j < row.len()
                invariant
                    j <= row@.len(),
                    copy@ == row@.take(j as int),
                decreases row@.len() - j,
            {
                copy.push(row[j]);
                j = j + 1;
                assert(copy@ == row@.take(j as int));
            }
            assert(copy@ == row@);
            distances.push(copy);
            i = i + 1;
        }
        let r = Distances { distances };
        assert forall|k: int| 0 <= k < dists@.len() implies #[trigger] r@[k] == dists@[k]@ by {
            assert(r.distances@[k]@ == dists@[k]@);
        }
        r
    }

    /// The entry at row `i`, column `j`.
    pub fn get_distances(&self, i: usize, j: usize) -> (r: &u32)
        requires
            i < self@.len(),
            j < self@[i as int].len(),
        ensures
            *r == self@[i as int][j as int],
    {
        &self.distances[i][j]
    }

    /// Number of rows.
    pub fn len(&self) -> (r: usize)
        ensures
            r == self@.len(),
    {
        self.distances.len()
    }
}

} // verus!
