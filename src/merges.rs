use vstd::prelude::*;

use crate::linkage::LinkageDistance;

verus! {

/// One merge event: clusters `cid1` and `cid2` joined at distance `dist`
/// into the new cluster `new_cid`.
#[derive(Debug, Clone, Copy, PartialEq, Eq, Structural)]
pub struct Merge {
    pub cid1: usize,
    pub cid2: usize,
    pub dist: LinkageDistance,
    pub new_cid: usize,
}

/// The leaves of cluster `c` after the merges `ms` over `n` items, in the order
/// in which merging concatenated them (members of `cid1` first).
pub open spec fn members(n: int, ms: Seq<Merge>, c: int) -> Seq<usize>
    decreases c,
{
    if 0 <= c < n {
        seq![c as usize]
    } else if n <= c < n + ms.len() && 0 <= n && (ms[c - n].cid1 as int) < c && (ms[c - n].cid2 as int) < c {
        members(n, ms, ms[c - n].cid1 as int) + members(n, ms, ms[c - n].cid2 as int)
    } else {
        Seq::empty()
    }
}

/// `s` without the elements `a` and `b`, the order of the others kept.
pub open spec fn remove_two(s: Seq<usize>, a: usize, b: usize) -> Seq<usize>
    decreases s.len(),
{
    if s.len() == 0 {
        s
    } else {
        let r = remove_two(s.drop_last(), a, b);
        if s.last() == a || s.last() == b {
            r
        } else {
            r.push(s.last())
        }
    }
}

/// The clusters still open for merging after the merges `ms` over `n` items,
/// in the order in which the engine keeps them: each merge drops its two
/// clusters and puts the new one first.
pub open spec fn active(n: int, ms: Seq<Merge>) -> Seq<usize>
    decreases ms.len(),
{
    if ms.len() == 0 {
        Seq::new(n as nat, |i: int| i as usize)
    } else {
        let e = ms.last();
        seq![e.new_cid] + remove_two(active(n, ms.drop_last()), e.cid1, e.cid2)
    }
}

/// Merge `k` of `ms` joins two distinct open clusters and creates id `n + k`.
pub open spec fn valid_step(n: int, ms: Seq<Merge>, k: int) -> bool {
    let e = ms[k];
    let act = active(n, ms.take(k));
    &&& e.new_cid as int == n + k
    &&& e.cid1 != e.cid2
    &&& act.contains(e.cid1)
    &&& act.contains(e.cid2)
}

/// Every merge of `ms` is a valid step.
pub open spec fn valid_prefix(n: int, ms: Seq<Merge>) -> bool {
    &&& 0 <= n <= usize::MAX
    &&& ms.len() <= if n == 0 { 0 } else { n - 1 }
    &&& forall|k: int| 0 <= k < ms.len() ==> #[trigger] valid_step(n, ms, k)
}

/// `ms` is a complete merge sequence over `n` items: `max(n - 1, 0)` valid merges.
pub open spec fn valid_merges(n: int, ms: Seq<Merge>) -> bool {
    &&& valid_prefix(n, ms)
    &&& ms.len() == if n == 0 { 0 } else { n - 1 }
}

/// No entry of `s` is an entry of `t`.
pub open spec fn disjoint(s: Seq<usize>, t: Seq<usize>) -> bool {
    forall|i: int, j: int| 0 <= i < s.len() && 0 <= j < t.len() ==> s[i] != t[j]
}

/// The open clusters after `ms` split the leaves `0..n` between them.
pub open spec fn partitioned(n: int, ms: Seq<Merge>) -> bool {
    let act = active(n, ms);
    &&& act.no_duplicates()
    &&& act.len() == n - ms.len()
    &&& forall|x: usize| #[trigger] act.contains(x) ==> (x as int) < n + ms.len()
    &&& forall|x: usize| #[trigger] act.contains(x) ==> {
        let s = members(n, ms, x as int);
        &&& s.no_duplicates()
        &&& s.len() > 0
        &&& forall|i: int| 0 <= i < s.len() ==> (#[trigger] s[i] as int) < n
    }
    &&& forall|x: usize, y: usize| #[trigger] act.contains(x) && #[trigger] act.contains(y) && x != y
        ==> disjoint(members(n, ms, x as int), members(n, ms, y as int))
    &&& forall|l: usize| (l as int) < n ==> #[trigger] covered(n, ms, l)
}

/// Leaf `l` belongs to some open cluster after `ms`.
pub open spec fn covered(n: int, ms: Seq<Merge>, l: usize) -> bool {
    exists|x: usize| #[trigger] active(n, ms).contains(x) && members(n, ms, x as int).contains(l)
}

/// The id of the root cluster after the merges `ms`.
pub open spec fn root_id(ms: Seq<Merge>) -> int {
    if ms.len() == 0 { 0 } else { ms.last().new_cid as int }
}

/// `s` holds each of `0..n` exactly once.
pub open spec fn is_permutation(s: Seq<usize>, n: int) -> bool {
    &&& s.len() == n
    &&& s.no_duplicates()
    &&& forall|l: usize| (l as int) < n ==> s.contains(l)
    &&& forall|i: int| 0 <= i < s.len() ==> (#[trigger] s[i] as int) < n
}

pub proof fn lemma_remove_two(s: Seq<usize>, a: usize, b: usize)
    ensures
        forall|x: usize| #[trigger] remove_two(s, a, b).contains(x) <==> (s.contains(x) && x != a && x != b),
        s.no_duplicates() ==> remove_two(s, a, b).no_duplicates(),
        s.no_duplicates() && a != b && s.contains(a) && s.contains(b) ==> remove_two(s, a, b).len() == s.len() - 2,
        remove_two(s, a, b).len() <= s.len(),
    decreases s.len(),
{
    if s.len() > 0 {
        let t = s.drop_last();
        lemma_remove_two(t, a, b);
        let r = remove_two(t, a, b);
        assert(s =~= t.push(s.last()));
        assert forall|x: usize| #[trigger] remove_two(s, a, b).contains(x) <==> (s.contains(x) && x != a && x != b) by {
            if s.contains(x) {
                let i = choose|i: int| 0 <= i < s.len() && s[i] == x;
                if i < t.len() {
                    assert(t[i] == x);
                }
            }
            if t.contains(x) {
                let i = choose|i: int| 0 <= i < t.len() && t[i] == x;
                assert(s[i] == x);
            }
            if r.contains(x) {
                let i = choose|i: int| 0 <= i < r.len() && r[i] == x;
                assert(r.push(s.last())[i] == x);
            }
            if !(s.last() == a || s.last() == b) {
                assert(r.push(s.last())[r.len() as int] == s.last());
            }
        }
        if s.no_duplicates() {
            assert(t.no_duplicates()) by {
                assert forall|i: int, j: int| 0 <= i < t.len() && 0 <= j < t.len() && i != j implies t[i] != t[j] by {
                    assert(s[i] == t[i] && s[j] == t[j]);
                }
            }
            if !(s.last() == a || s.last() == b) {
                assert(!t.contains(s.last())) by {
                    if t.contains(s.last()) {
                        let i = choose|i: int| 0 <= i < t.len() && t[i] == s.last();
                        assert(s[i] == s[s.len() - 1]);
                    }
                }
                assert(!r.contains(s.last()));
                assert(r.push(s.last()).no_duplicates()) by {
                    assert forall|i: int, j: int| 0 <= i < r.len() + 1 && 0 <= j < r.len() + 1 && i != j implies r.push(s.last())[i] != r.push(s.last())[j] by {
                        if i < r.len() && j < r.len() {
                        } else if i < r.len() {
                            assert(r.contains(r[i]));
                        } else {
                            assert(r.contains(r[j]));
                        }
                    }
                }
            }
            if a != b && s.contains(a) && s.contains(b) {
                if s.last() == a {
                    assert(!t.contains(a)) by {
                        if t.contains(a) {
                            let i = choose|i: int| 0 <= i < t.len() && t[i] == a;
                            assert(s[i] == s[s.len() - 1]);
                        }
                    }
                    assert(!remove_two(t, a, b).contains(a));
                    lemma_remove_one(t, a, b);
                } else if s.last() == b {
                    assert(!t.contains(b)) by {
                        if t.contains(b) {
                            let i = choose|i: int| 0 <= i < t.len() && t[i] == b;
                            assert(s[i] == s[s.len() - 1]);
                        }
                    }
                    lemma_remove_one(t, b, a);
                    lemma_remove_two_swap(t, a, b);
                } else {
                    let ia = choose|i: int| 0 <= i < s.len() && s[i] == a;
                    let ib = choose|i: int| 0 <= i < s.len() && s[i] == b;
                    assert(t[ia] == a && t[ib] == b);
                }
            }
        }
    }
}

proof fn lemma_remove_two_swap(s: Seq<usize>, a: usize, b: usize)
    ensures
        remove_two(s, a, b) == remove_two(s, b, a),
    decreases s.len(),
{
    if s.len() > 0 {
        lemma_remove_two_swap(s.drop_last(), a, b);
    }
}

/// With `a` absent, removing `a` and `b` drops one entry when `b` occurs once.
proof fn lemma_remove_one(s: Seq<usize>, a: usize, b: usize)
    requires
        !s.contains(a),
        s.no_duplicates(),
        s.contains(b),
    ensures
        remove_two(s, a, b).len() == s.len() - 1,
    decreases s.len(),
{
    let t = s.drop_last();
    assert(t.no_duplicates()) by {
        assert forall|i: int, j: int| 0 <= i < t.len() && 0 <= j < t.len() && i != j implies t[i] != t[j] by {
            assert(s[i] == t[i] && s[j] == t[j]);
        }
    }
    assert(!t.contains(a)) by {
        if t.contains(a) {
            let i = choose|i: int| 0 <= i < t.len() && t[i] == a;
            assert(s[i] == a);
        }
    }
    if s.last() == b {
        assert(!t.contains(b)) by {
            if t.contains(b) {
                let i = choose|i: int| 0 <= i < t.len() && t[i] == b;
                assert(s[i] == s[s.len() - 1]);
            }
        }
        lemma_remove_none(t, a, b);
    } else {
        let i = choose|i: int| 0 <= i < s.len() && s[i] == b;
        assert(t[i] == b);
        assert(s.last() != a) by {
            assert(s[s.len() - 1] == s.last());
        }
        lemma_remove_one(t, a, b);
    }
}

proof fn lemma_remove_none(s: Seq<usize>, a: usize, b: usize)
    requires
        !s.contains(a),
        !s.contains(b),
    ensures
        remove_two(s, a, b) == s,
    decreases s.len(),
{
    if s.len() > 0 {
        let t = s.drop_last();
        assert(!t.contains(a)) by {
            if t.contains(a) {
                let i = choose|i: int| 0 <= i < t.len() && t[i] == a;
                assert(s[i] == a);
            }
        }
        assert(!t.contains(b)) by {
            if t.contains(b) {
                let i = choose|i: int| 0 <= i < t.len() && t[i] == b;
                assert(s[i] == b);
            }
        }
        lemma_remove_none(t, a, b);
        assert(s[s.len() - 1] == s.last());
        assert(s =~= t.push(s.last()));
    }
}

/// Appending a merge leaves the members of every existing cluster unchanged.
pub proof fn lemma_members_extend(n: int, ms: Seq<Merge>, e: Merge, c: int)
    requires
        0 <= n,
        c < n + ms.len(),
    ensures
        members(n, ms.push(e), c) == members(n, ms, c),
    decreases c,
{
    if n <= c {
        let f = ms[c - n];
        assert(ms.push(e)[c - n] == f);
        if (f.cid1 as int) < c && (f.cid2 as int) < c {
            lemma_members_extend(n, ms, e, f.cid1 as int);
            lemma_members_extend(n, ms, e, f.cid2 as int);
        }
    }
}

/// Dropping the last merge of a valid prefix leaves a valid prefix.
pub proof fn lemma_prefix_drop_last(n: int, ms: Seq<Merge>)
    requires
        valid_prefix(n, ms),
        ms.len() > 0,
    ensures
        valid_prefix(n, ms.drop_last()),
{
    let t = ms.drop_last();
    assert forall|k: int| 0 <= k < t.len() implies #[trigger] valid_step(n, t, k) by {
        assert(valid_step(n, ms, k));
        assert(t.take(k) =~= ms.take(k));
    }
}

/// The open clusters of a valid merge prefix always split the leaves `0..n`.
pub proof fn lemma_partitioned(n: int, ms: Seq<Merge>)
    requires
        valid_prefix(n, ms),
    ensures
        partitioned(n, ms),
    decreases ms.len(),
{
    if ms.len() == 0 {
        let act = active(n, ms);
        assert(act.len() == n);
        assert forall|x: usize| #[trigger] act.contains(x) implies (x as int) < n && members(n, ms, x as int) == seq![x] by {
            let i = choose|i: int| 0 <= i < act.len() && act[i] == x;
        }
        assert(act.no_duplicates()) by {
            assert forall|i: int, j: int| 0 <= i < act.len() && 0 <= j < act.len() && i != j implies act[i] != act[j] by {}
        }
        assert forall|x: usize| #[trigger] act.contains(x) implies ({
            let s = members(n, ms, x as int);
            &&& s.no_duplicates()
            &&& s.len() > 0
            &&& forall|i: int| 0 <= i < s.len() ==> (#[trigger] s[i] as int) < n
        }) by {
            let s = members(n, ms, x as int);
            assert(s == seq![x]);
            assert(s.no_duplicates());
        }
        assert forall|l: usize| (l as int) < n implies #[trigger] covered(n, ms, l) by {
            assert(act[l as int] == l);
            assert(act.contains(l));
            assert(members(n, ms, l as int)[0] == l);
        }
        assert forall|x: usize, y: usize| #[trigger] act.contains(x) && #[trigger] act.contains(y) && x != y
            implies disjoint(members(n, ms, x as int), members(n, ms, y as int)) by {
        }
    } else {
        let t = ms.drop_last();
        let e = ms.last();
        let k = t.len() as int;
        lemma_prefix_drop_last(n, ms);
        lemma_partitioned(n, t);
        assert(t.push(e) =~= ms);
        assert(valid_step(n, ms, k));
        assert(ms.take(k) =~= t);
        let pa = active(n, t);
        let act = active(n, ms);
        let (c1, c2) = (e.cid1, e.cid2);
        let r = remove_two(pa, c1, c2);
        lemma_remove_two(pa, c1, c2);
        assert(act == seq![e.new_cid] + r);
        // members of earlier clusters are unchanged
        assert forall|c: int| c < n + k implies #[trigger] members(n, ms, c) == members(n, t, c) by {
            lemma_members_extend(n, t, e, c);
        }
        assert((c1 as int) < n + k && (c2 as int) < n + k);
        let m1 = members(n, t, c1 as int);
        let m2 = members(n, t, c2 as int);
        assert(members(n, ms, c1 as int) == m1);
        assert(members(n, ms, c2 as int) == m2);
        assert(ms[k] == e);
        assert(members(n, ms, e.new_cid as int) == m1 + m2);
        let mnew = m1 + m2;
        assert(disjoint(m1, m2));
        vstd::seq_lib::lemma_no_dup_in_concat(m1, m2);
        assert(!r.contains(e.new_cid)) by {
            if r.contains(e.new_cid) {
                assert(pa.contains(e.new_cid));
            }
        }
        assert(act.no_duplicates()) by {
            assert forall|i: int, j: int| 0 <= i < act.len() && 0 <= j < act.len() && i != j implies act[i] != act[j] by {
                if i > 0 && j > 0 {
                    assert(act[i] == r[i - 1] && act[j] == r[j - 1]);
                } else if i > 0 {
                    assert(act[i] == r[i - 1]);
                    assert(r.contains(r[i - 1]));
                } else {
                    assert(act[j] == r[j - 1]);
                    assert(r.contains(r[j - 1]));
                }
            }
        }
        assert forall|x: usize| #[trigger] act.contains(x) implies x == e.new_cid || (r.contains(x)) by {
            let i = choose|i: int| 0 <= i < act.len() && act[i] == x;
            if i > 0 {
                assert(r[i - 1] == x);
            }
        }
        assert(act.contains(e.new_cid)) by {
            assert(act[0] == e.new_cid);
        }
        assert forall|x: usize| #[trigger] r.contains(x) implies act.contains(x) by {
            let i = choose|i: int| 0 <= i < r.len() && r[i] == x;
            assert(act[i + 1] == x);
        }
        assert forall|x: usize| #[trigger] act.contains(x) implies (x as int) < n + ms.len() by {}
        assert forall|x: usize| #[trigger] act.contains(x) implies ({
            let s = members(n, ms, x as int);
            &&& s.no_duplicates()
            &&& s.len() > 0
            &&& forall|i: int| 0 <= i < s.len() ==> (#[trigger] s[i] as int) < n
        }) by {
            if x == e.new_cid {
                assert forall|i: int| 0 <= i < mnew.len() implies (#[trigger] mnew[i] as int) < n by {
                    if i < m1.len() {
                        assert(mnew[i] == m1[i]);
                    } else {
                        assert(mnew[i] == m2[i - m1.len()]);
                    }
                }
            } else {
                assert(pa.contains(x));
            }
        }
        assert forall|x: usize, y: usize| #[trigger] act.contains(x) && #[trigger] act.contains(y) && x != y
            implies disjoint(members(n, ms, x as int), members(n, ms, y as int)) by {
            if x == e.new_cid {
                assert(pa.contains(y) && y != c1 && y != c2);
                let my = members(n, t, y as int);
                assert(disjoint(m1, my) && disjoint(m2, my));
                assert forall|i: int, j: int| 0 <= i < mnew.len() && 0 <= j < my.len() implies mnew[i] != my[j] by {
                    if i < m1.len() {
                        assert(mnew[i] == m1[i]);
                    } else {
                        assert(mnew[i] == m2[i - m1.len()]);
                    }
                }
            } else if y == e.new_cid {
                assert(pa.contains(x) && x != c1 && x != c2);
                let mx = members(n, t, x as int);
                assert(disjoint(mx, m1) && disjoint(mx, m2));
                assert forall|i: int, j: int| 0 <= i < mx.len() && 0 <= j < mnew.len() implies mx[i] != mnew[j] by {
                    if j < m1.len() {
                        assert(mnew[j] == m1[j]);
                    } else {
                        assert(mnew[j] == m2[j - m1.len()]);
                    }
                }
            } else {
                assert(pa.contains(x) && pa.contains(y));
            }
        }
        assert forall|l: usize| (l as int) < n implies #[trigger] covered(n, ms, l) by {
            assert(covered(n, t, l));
            let x = choose|x: usize| #[trigger] pa.contains(x) && members(n, t, x as int).contains(l);
            let i = choose|i: int| 0 <= i < members(n, t, x as int).len() && members(n, t, x as int)[i] == l;
            if x == c1 {
                assert(mnew[i] == l);
                assert(act.contains(e.new_cid) && members(n, ms, e.new_cid as int).contains(l));
            } else if x == c2 {
                assert(mnew[m1.len() + i] == l);
                assert(act.contains(e.new_cid) && members(n, ms, e.new_cid as int).contains(l));
            } else {
                assert(r.contains(x));
                assert(act.contains(x) && members(n, ms, x as int).contains(l));
            }
        }
    }
}

/// A duplicate-free sequence of leaves below `n` holds at most `n` of them,
/// and exactly `n` when every leaf below `n` occurs.
pub proof fn lemma_unique_leaves_len(s: Seq<usize>, n: int)
    requires
        0 <= n <= usize::MAX,
        s.no_duplicates(),
        forall|i: int| 0 <= i < s.len() ==> (#[trigger] s[i] as int) < n,
    ensures
        s.len() <= n,
        (forall|l: usize| (l as int) < n ==> s.contains(l)) ==> s.len() == n,
{
    let si = s.map_values(|x: usize| x as int);
    assert(si.no_duplicates()) by {
        assert forall|i: int, j: int| 0 <= i < si.len() && 0 <= j < si.len() && i != j implies si[i] != si[j] by {
            assert(s[i] != s[j]);
        }
    }
    si.unique_seq_to_set();
    vstd::set_lib::lemma_int_range(0, n);
    let range = vstd::set_lib::set_int_range(0, n);
    assert(si.to_set().subset_of(range)) by {
        assert forall|v: int| si.to_set().contains(v) implies range.contains(v) by {
            let i = choose|i: int| 0 <= i < si.len() && si[i] == v;
            assert(s[i] as int == v);
        }
    }
    vstd::set_lib::lemma_len_subset(si.to_set(), range);
    if forall|l: usize| (l as int) < n ==> s.contains(l) {
        assert(range.subset_of(si.to_set())) by {
            assert forall|v: int| range.contains(v) implies si.to_set().contains(v) by {
                let l = v as usize;
                assert(s.contains(l));
                let i = choose|i: int| 0 <= i < s.len() && s[i] == l;
                assert(si[i] == v);
            }
        }
        vstd::set_lib::lemma_len_subset(range, si.to_set());
    }
}

/// After a complete merge sequence over `n >= 1` items, the root is the one
/// open cluster.
pub proof fn lemma_root_active(n: int, ms: Seq<Merge>)
    requires
        valid_merges(n, ms),
        n >= 1,
    ensures
        active(n, ms) == seq![root_id(ms) as usize],
        0 <= root_id(ms) < n + ms.len(),
{
    lemma_partitioned(n, ms);
    let act = active(n, ms);
    assert(act.len() == 1);
    if ms.len() == 0 {
        assert(act[0] == 0);
    } else {
        let t = ms.drop_last();
        assert(act == seq![ms.last().new_cid] + remove_two(active(n, t), ms.last().cid1, ms.last().cid2));
        assert(act[0] == ms.last().new_cid);
        assert(valid_step(n, ms, ms.len() - 1));
    }
    assert(act =~= seq![root_id(ms) as usize]);
}

/// The leaves of the root cluster of a complete merge sequence over `n >= 1`
/// items are `0..n`, each exactly once.
pub proof fn lemma_root_permutation(n: int, ms: Seq<Merge>)
    requires
        valid_merges(n, ms),
        n >= 1,
    ensures
        is_permutation(members(n, ms, root_id(ms)), n),
{
    lemma_partitioned(n, ms);
    lemma_root_active(n, ms);
    let act = active(n, ms);
    let root = act[0];
    assert(act.contains(root));
    let s = members(n, ms, root as int);
    assert forall|l: usize| (l as int) < n implies s.contains(l) by {
        assert(covered(n, ms, l));
        let x = choose|x: usize| #[trigger] act.contains(x) && members(n, ms, x as int).contains(l);
        let i = choose|i: int| 0 <= i < act.len() && act[i] == x;
        assert(i == 0);
    }
    lemma_unique_leaves_len(s, n);
}

/// Every merge of `ms` joins clusters created before it.
pub open spec fn ids_ordered(n: int, ms: Seq<Merge>) -> bool {
    forall|k: int| 0 <= k < ms.len() ==> (#[trigger] ms[k].cid1 as int) < n + k && (ms[k].cid2 as int) < n + k
}

pub proof fn lemma_ids_ordered(n: int, ms: Seq<Merge>)
    requires
        valid_prefix(n, ms),
    ensures
        ids_ordered(n, ms),
{
    assert forall|k: int| 0 <= k < ms.len() implies (#[trigger] ms[k].cid1 as int) < n + k && (ms[k].cid2 as int) < n + k by {
        assert(valid_step(n, ms, k));
        let t = ms.take(k);
        assert forall|j: int| 0 <= j < t.len() implies #[trigger] valid_step(n, t, j) by {
            assert(t.take(j) =~= ms.take(j));
            assert(valid_step(n, ms, j));
        }
        lemma_partitioned(n, t);
    }
}

} // verus!
