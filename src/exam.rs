//! Clustering datasets and their derived views, and the problem types.
use vstd::prelude::*;

verus! {


/// A clustering dataset: an ordered collection of labelled items.
#[derive(Debug, Clone, Default)]
pub struct ClusteringExam {
    pub data: Vec<ClusteringItem>,
}

/// One labelled item of a dataset.
#[derive(Debug, Clone, Default)]
pub struct ClusteringItem {
    /// The text shown to the learner.
    pub data: String,
    /// The cluster the item belongs to.
    pub clsid: i32,
}

/// The items of `s` whose cluster is `c`, in their order in `s`.
pub open spec fn group(s: Seq<ClusteringItem>, c: i32) -> Seq<ClusteringItem>
    decreases s.len(),
{
    if s.len() == 0 {
        Seq::empty()
    } else if s.last().clsid == c {
        group(s.drop_last(), c).push(s.last())
    } else {
        group(s.drop_last(), c)
    }
}

/// How many items of `s` belong to cluster `c`.
pub open spec fn cluster_count(s: Seq<ClusteringItem>, c: i32) -> nat {
    group(s, c).len()
}

/// How many items of `s` lie outside cluster `c`.
pub open spec fn others_count(s: Seq<ClusteringItem>, c: i32) -> nat
    decreases s.len(),
{
    if s.len() == 0 {
        0
    } else if s.last().clsid == c {
        others_count(s.drop_last(), c)
    } else {
        others_count(s.drop_last(), c) + 1
    }
}

/// The cluster identifiers that occur in `s`.
pub open spec fn cluster_ids(s: Seq<ClusteringItem>) -> Set<i32> {
    Set::new(|c: i32| exists|i: int| 0 <= i < s.len() && s[i].clsid == c)
}

impl ClusteringItem {
    /// A copy of the item.
    pub fn duplicate(&self) -> (r: ClusteringItem)
        ensures
            r == *self,
    {
        ClusteringItem { data: self.data.clone(), clsid: self.clsid }
    }
}

impl ClusteringExam {
    /// The number of items in cluster `clsid`.
    pub fn cluster_size(&self, clsid: i32) -> (r: usize)
        ensures
            r == cluster_count(self.data@, clsid),
    {
        let mut n: usize = 0;
        let mut i: usize = 0;
        while i < self.data.len()
            invariant
                i <= self.data@.len(),
                n == cluster_count(self.data@.subrange(0, i as int), clsid),
                n <= i,
            decreases self.data@.len() - i,
        {
            proof {
                assert(self.data@.subrange(0, i + 1).drop_last() =~= self.data@.subrange(0, i as int));
            }
            if self.data[i].clsid == clsid {
                n = n + 1;
            }
            i = i + 1;
        }
        proof {
            assert(self.data@.subrange(0, i as int) =~= self.data@);
        }
        n
    }

    /// The size of the largest cluster, and 1 when there is no item.
    pub fn column_count(&self) -> (r: usize)
        ensures
            r >= 1,
            forall|i: int| 0 <= i < self.data@.len() ==> cluster_count(self.data@, #[trigger] self.data@[i].clsid) <= r,
            r == 1 || exists|i: int| 0 <= i < self.data@.len() && cluster_count(self.data@, #[trigger] self.data@[i].clsid) == r,
            self.data@.len() == 0 ==> r == 1,
    {
        let mut best: usize = 1;
        let mut i: usize = 0;
        while i < self.data.len()
            invariant
                i <= self.data@.len(),
                best >= 1,
                forall|j: int| 0 <= j < i ==> cluster_count(self.data@, #[trigger] self.data@[j].clsid) <= best,
                best == 1 || exists|j: int| 0 <= j < i && cluster_count(self.data@, #[trigger] self.data@[j].clsid) == best,
            decreases self.data@.len() - i,
        {
            let n = self.cluster_size(self.data[i].clsid);
            if n > best {
                best = n;
            }
            i = i + 1;
        }
        best
    }
}


/// One of `groups` is headed by an item of cluster `c`.
pub open spec fn has_group(groups: Seq<Vec<ClusteringItem>>, c: i32) -> bool {
    exists|k: int| 0 <= k < groups.len() && groups[k]@[0].clsid == c
}

/// Some item among the first `i` of `s` lies in cluster `x`.
pub open spec fn in_prefix(s: Seq<ClusteringItem>, i: int, x: i32) -> bool {
    exists|j: int| 0 <= j < i && s[j].clsid == x
}

proof fn lemma_in_prefix_step(s: Seq<ClusteringItem>, i: int, x: i32)
    requires
        0 <= i < s.len(),
    ensures
        in_prefix(s, i + 1, x) <==> in_prefix(s, i, x) || s[i].clsid == x,
{
    if in_prefix(s, i + 1, x) {
        let j = choose|j: int| 0 <= j < i + 1 && s[j].clsid == x;
        if j < i {
            assert(in_prefix(s, i, x));
        }
    }
    if in_prefix(s, i, x) {
        let j = choose|j: int| 0 <= j < i && s[j].clsid == x;
        assert(0 <= j < i + 1 && s[j].clsid == x);
    }
    if s[i].clsid == x {
        assert(0 <= i < i + 1 && s[i].clsid == x);
    }
}

/// `ids` is strictly increasing.
pub open spec fn strictly_increasing(ids: Seq<i32>) -> bool {
    forall|a: int, b: int| 0 <= a < b < ids.len() ==> ids[a] < ids[b]
}

/// Inserting `c` where it belongs keeps a strictly increasing sequence so,
/// and adds `c` to its members.
proof fn lemma_sorted_insert(before: Seq<i32>, p: int, c: i32)
    requires
        strictly_increasing(before),
        0 <= p <= before.len(),
        forall|a: int| 0 <= a < p ==> before[a] < c,
        p < before.len() ==> before[p] > c,
    ensures
        strictly_increasing(before.insert(p, c)),
        forall|x: i32| before.insert(p, c).contains(x) <==> (before.contains(x) || x == c),
{
    let ids = before.insert(p, c);
    assert forall|a: int, b: int| 0 <= a < b < ids.len() implies ids[a] < ids[b] by {
        if b < p {
        } else if b == p {
        } else if a < p {
            if p < b - 1 {
                assert(before[p] < before[b - 1]);
            }
        } else if a == p {
            if p < b - 1 {
                assert(before[p] < before[b - 1]);
            }
        } else {
            assert(before[a - 1] < before[b - 1]);
        }
    }
    assert forall|x: i32| ids.contains(x) <==> (before.contains(x) || x == c) by {
        if ids.contains(x) {
            let k = choose|k: int| 0 <= k < ids.len() && ids[k] == x;
            if k < p {
                assert(before[k] == x);
            } else if k > p {
                assert(before[k - 1] == x);
            }
        }
        if before.contains(x) {
            let k = choose|k: int| 0 <= k < before.len() && before[k] == x;
            if k < p {
                assert(ids[k] == x);
            } else {
                assert(ids[k + 1] == x);
            }
        }
        if x == c {
            assert(ids[p] == x);
        }
    }
}

impl ClusteringExam {
    /// The identifiers of the clusters present, in ascending order.
    pub fn cluster_id_list(&self) -> (r: Vec<i32>)
        ensures
            strictly_increasing(r@),
            forall|c: i32| r@.contains(c) <==> cluster_ids(self.data@).contains(c),
    {
        let mut ids: Vec<i32> = Vec::new();
        let mut i: usize = 0;
        while i < self.data.len()
            invariant
                i <= self.data@.len(),
                strictly_increasing(ids@),
                forall|x: i32| ids@.contains(x) <==> in_prefix(self.data@, i as int, x),
            decreases self.data@.len() - i,
        {
            let c = self.data[i].clsid;
            let ghost prev = ids@;
            let mut p: usize = 0;
            while p < ids.len() && ids[p] < c
                invariant
                    p <= ids@.len(),
                    ids@ == prev,
                    forall|a: int| 0 <= a < p ==> ids@[a] < c,
                decreases ids@.len() - p,
            {
                p = p + 1;
            }
            if p < ids.len() && ids[p] == c {
                proof {
                    assert(prev[p as int] == c);
                    assert(prev.contains(c));
                }
            } else {
                proof {
                    lemma_sorted_insert(prev, p as int, c);
                }
                ids.insert(p, c);
            }
            proof {
                assert forall|x: i32| ids@.contains(x) <==> in_prefix(self.data@, i + 1, x) by {
                    assert(ids@.contains(x) <==> (prev.contains(x) || x == c));
                    assert(prev.contains(x) <==> in_prefix(self.data@, i as int, x));
                    lemma_in_prefix_step(self.data@, i as int, x);
                }
            }
            i = i + 1;
        }
        proof {
            assert forall|x: i32| ids@.contains(x) <==> cluster_ids(self.data@).contains(x) by {
                assert(in_prefix(self.data@, i as int, x) == cluster_ids(self.data@).contains(x));
            }
        }
        ids
    }

    /// The items of cluster `clsid`, in dataset order.
    pub fn cluster_items(&self, clsid: i32) -> (r: Vec<ClusteringItem>)
        ensures
            r@ == group(self.data@, clsid),
    {
        let mut out: Vec<ClusteringItem> = Vec::new();
        let mut i: usize = 0;
        while i < self.data.len()
            invariant
                i <= self.data@.len(),
                out@ == group(self.data@.subrange(0, i as int), clsid),
            decreases self.data@.len() - i,
        {
            proof {
                assert(self.data@.subrange(0, i + 1).drop_last() =~= self.data@.subrange(0, i as int));
            }
            if self.data[i].clsid == clsid {
                out.push(self.data[i].duplicate());
            }
            i = i + 1;
        }
        proof {
            assert(self.data@.subrange(0, i as int) =~= self.data@);
        }
        out
    }

    /// The items grouped by cluster: one group per cluster, in ascending
    /// order of cluster identifier, each group in dataset order.
    pub fn table(&self) -> (r: Vec<Vec<ClusteringItem>>)
        ensures
            forall|k: int| 0 <= k < r@.len() ==> #[trigger] r@[k]@.len() > 0 && r@[k]@ == group(self.data@, r@[k]@[0].clsid),
            forall|k: int, l: int| 0 <= k < l < r@.len() ==> #[trigger] r@[k]@[0].clsid < #[trigger] r@[l]@[0].clsid,
            forall|i: int| 0 <= i < self.data@.len() ==> has_group(r@, #[trigger] self.data@[i].clsid),
    {
        let ids = self.cluster_id_list();
        let mut out: Vec<Vec<ClusteringItem>> = Vec::new();
        let mut k: usize = 0;
        while k < ids.len()
            invariant
                k <= ids@.len(),
                out@.len() == k,
                strictly_increasing(ids@),
                forall|c: i32| ids@.contains(c) <==> cluster_ids(self.data@).contains(c),
                forall|j: int| 0 <= j < k ==> #[trigger] out@[j]@.len() > 0 && out@[j]@ == group(self.data@, ids@[j]) && out@[j]@[0].clsid == ids@[j],
            decreases ids@.len() - k,
        {
            let g = self.cluster_items(ids[k]);
            proof {
                assert(ids@.contains(ids@[k as int]));
                let w = choose|w: int| 0 <= w < self.data@.len() && self.data@[w].clsid == ids@[k as int];
                lemma_group_member(self.data@, w);
            }
            out.push(g);
            k = k + 1;
        }
        proof {
            assert forall|i: int| 0 <= i < self.data@.len() implies has_group(out@, #[trigger] self.data@[i].clsid) by {
                let c = self.data@[i].clsid;
                assert(cluster_ids(self.data@).contains(c));
                assert(ids@.contains(c));
                let j = choose|j: int| 0 <= j < ids@.len() && ids@[j] == c;
                assert(out@[j]@.len() > 0);
                assert(out@[j]@[0].clsid == c);
            }
            assert forall|a: int, b: int| 0 <= a < b < out@.len() implies #[trigger] out@[a]@[0].clsid < #[trigger] out@[b]@[0].clsid by {
                assert(out@[a]@.len() > 0);
                assert(out@[b]@.len() > 0);
            }
        }
        out
    }
}

/// Every item belongs to its own cluster's group, which is then non-empty and
/// made of items of that cluster.
pub proof fn lemma_group_member(s: Seq<ClusteringItem>, w: int)
    requires
        0 <= w < s.len(),
    ensures
        group(s, s[w].clsid).len() > 0,
        forall|k: int| 0 <= k < group(s, s[w].clsid).len() ==> #[trigger] group(s, s[w].clsid)[k].clsid == s[w].clsid,
    decreases s.len(),
{
    lemma_group_cluster(s, s[w].clsid);
    if w < s.len() - 1 {
        lemma_group_member(s.drop_last(), w);
    }
}

/// Every item of a cluster's group belongs to that cluster.
pub proof fn lemma_group_cluster(s: Seq<ClusteringItem>, c: i32)
    ensures
        forall|k: int| 0 <= k < group(s, c).len() ==> #[trigger] group(s, c)[k].clsid == c,
        group(s, c).len() <= s.len(),
    decreases s.len(),
{
    if s.len() > 0 {
        lemma_group_cluster(s.drop_last(), c);
    }
}


impl ClusteringExam {
    /// The size of each cluster present, as pairs of cluster identifier and
    /// count, in ascending order of identifier.
    pub fn cluster_sizes(&self) -> (r: Vec<(i32, usize)>)
        ensures
            strictly_increasing(r@.map_values(|e: (i32, usize)| e.0)),
            forall|c: i32| r@.map_values(|e: (i32, usize)| e.0).contains(c) <==> cluster_ids(self.data@).contains(c),
            forall|k: int| 0 <= k < r@.len() ==> (#[trigger] r@[k]).1 == cluster_count(self.data@, r@[k].0),
    {
        let ids = self.cluster_id_list();
        let mut out: Vec<(i32, usize)> = Vec::new();
        let mut k: usize = 0;
        while k < ids.len()
            invariant
                k <= ids@.len(),
                out@.len() == k,
                forall|j: int| 0 <= j < k ==> (#[trigger] out@[j]).0 == ids@[j] && out@[j].1 == cluster_count(self.data@, ids@[j]),
            decreases ids@.len() - k,
        {
            let n = self.cluster_size(ids[k]);
            out.push((ids[k], n));
            k = k + 1;
        }
        proof {
            assert(out@.map_values(|e: (i32, usize)| e.0) =~= ids@);
        }
        out
    }
}

/// A generated multiple-choice problem.
#[derive(Debug, Clone, Default)]
pub struct ClusteringExamProb {
    /// Position of the problem in its batch.
    pub id: i32,
    /// Index of the correct option.
    pub answer: i32,
    /// Label of the item the question is about.
    pub head: String,
    /// The full membership of the head's cluster, in words.
    pub explain: String,
    pub opts: Vec<ClusteringExamProbOption>,
}

/// One option of a problem.
#[derive(Debug, Clone, Default)]
pub struct ClusteringExamProbOption {
    /// Position of the option in its problem.
    pub id: i32,
    /// The text shown.
    pub html: String,
}

/// Why a batch of problems could not be generated.
#[derive(Debug, Clone, Copy, PartialEq, Eq, Structural)]
pub enum ExamError {
    /// An item whose cluster has no other member was drawn as a head, so no
    /// correct option exists for it; the cluster is named.
    InsufficientClusterSize(i32),
}

} // verus!
