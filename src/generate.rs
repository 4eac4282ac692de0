//! Drawing problems at random.
use crate::exam::{cluster_count, cluster_ids, others_count, ClusteringExam, ClusteringExamProb, ClusteringItem, ExamError};
use crate::random::{choose_distinct, fresh_rng, shuffle_in_place};
use vstd::prelude::*;

verus! {


/// A cluster has a member in `s` exactly when its count is positive.
pub proof fn lemma_count_positive(s: Seq<ClusteringItem>, c: i32)
    ensures
        cluster_count(s, c) >= 1 <==> exists|q: int| 0 <= q < s.len() && s[q].clsid == c,
    decreases s.len(),
{
    if s.len() > 0 {
        let t = s.drop_last();
        lemma_count_positive(t, c);
        if exists|q: int| 0 <= q < t.len() && t[q].clsid == c {
            let q = choose|q: int| 0 <= q < t.len() && t[q].clsid == c;
            assert(s[q].clsid == c);
        }
        if exists|q: int| 0 <= q < s.len() && s[q].clsid == c {
            let q = choose|q: int| 0 <= q < s.len() && s[q].clsid == c;
            if q < t.len() {
                assert(t[q].clsid == c);
            }
        }
    }
}

/// The cluster of the item at `h` has a second member exactly when its
/// count is at least two.
pub proof fn lemma_count_mate(s: Seq<ClusteringItem>, h: int)
    requires
        0 <= h < s.len(),
    ensures
        cluster_count(s, s[h].clsid) >= 2 <==> exists|q: int| 0 <= q < s.len() && q != h && s[q].clsid == s[h].clsid,
        cluster_count(s, s[h].clsid) >= 1,
    decreases s.len(),
{
    let c = s[h].clsid;
    let t = s.drop_last();
    lemma_count_positive(s, c);
    lemma_count_positive(t, c);
    if h == s.len() - 1 {
        if exists|q: int| 0 <= q < s.len() && q != h && s[q].clsid == c {
            let q = choose|q: int| 0 <= q < s.len() && q != h && s[q].clsid == c;
            assert(t[q].clsid == c);
        }
        if exists|q: int| 0 <= q < t.len() && t[q].clsid == c {
            let q = choose|q: int| 0 <= q < t.len() && t[q].clsid == c;
            assert(s[q].clsid == c && q != h);
        }
    } else {
        lemma_count_mate(t, h);
        assert(t[h] == s[h]);
        if exists|q: int| 0 <= q < s.len() && q != h && s[q].clsid == c {
            let q = choose|q: int| 0 <= q < s.len() && q != h && s[q].clsid == c;
            if q < t.len() {
                assert(t[q].clsid == c);
            }
        }
        if exists|q: int| 0 <= q < t.len() && q != h && t[q].clsid == c {
            let q = choose|q: int| 0 <= q < t.len() && q != h && t[q].clsid == c;
            assert(s[q].clsid == c);
        }
    }
}

/// Appending an element not yet present keeps a sequence free of duplicates.
pub proof fn lemma_push_fresh(v: Seq<usize>, x: usize)
    requires
        v.no_duplicates(),
        forall|k: int| 0 <= k < v.len() ==> #[trigger] v[k] < x,
    ensures
        v.push(x).no_duplicates(),
{
    let w = v.push(x);
    assert forall|a: int, b: int| 0 <= a < w.len() && 0 <= b < w.len() && a != b implies w[a] != w[b] by {
        if a < v.len() && b < v.len() {
            assert(v[a] != v[b]);
        } else if a < v.len() {
            assert(v[a] < x);
        } else if b < v.len() {
            assert(v[b] < x);
        }
    }
}

impl ClusteringExam {
    /// The positions of the items outside cluster `c`, in ascending order.
    pub fn others_of(&self, c: i32) -> (r: Vec<usize>)
        ensures
            r@.no_duplicates(),
            r@.len() == others_count(self.data@, c),
            forall|k: int| 0 <= k < r@.len() ==> #[trigger] r@[k] < self.data@.len() && !self.in_cluster(r@[k], c),
    {
        let mut out: Vec<usize> = Vec::new();
        let mut p: usize = 0;
        while p < self.data.len()
            invariant
                p <= self.data@.len(),
                out@.no_duplicates(),
                out@.len() == others_count(self.data@.subrange(0, p as int), c),
                forall|k: int| 0 <= k < out@.len() ==> #[trigger] out@[k] < p && !self.in_cluster(out@[k], c),
            decreases self.data@.len() - p,
        {
            proof {
                assert(self.data@.subrange(0, p + 1).drop_last() =~= self.data@.subrange(0, p as int));
            }
            if self.data[p].clsid != c {
                proof {
                    lemma_push_fresh(out@, p);
                }
                out.push(p);
            }
            p = p + 1;
        }
        proof {
            assert(self.data@.subrange(0, p as int) =~= self.data@);
        }
        out
    }

    /// At position `k` of `order` stands the correct option for the item at
    /// `head`: another member of its cluster, with a label of its own where
    /// the cluster has one, and the only option from that cluster.
    pub open spec fn is_answer_at(&self, head: int, order: Seq<usize>, k: int) -> bool {
        let c = self.data@[head].clsid;
        let a = order[k];
        &&& self.in_cluster(a, c)
        &&& a != head
        &&& (exists|q: int| 0 <= q < self.data@.len() && self.data@[q].clsid == c && self.data@[q].data@ != self.data@[head].data@)
            ==> self.data@[a as int].data@ != self.data@[head].data@
        &&& forall|j: int| 0 <= j < order.len() && j != k ==> !self.in_cluster(#[trigger] order[j], c)
    }

    /// `order` is a valid choice of options for the item at `head`: distinct
    /// items, as many distractors as there are up to three, and one answer.
    pub open spec fn drawn(&self, head: int, order: Seq<usize>) -> bool {
        let n = others_count(self.data@, self.data@[head].clsid);
        &&& self.in_range(order)
        &&& order.no_duplicates()
        &&& order.len() == (if n < 3 { n } else { 3 }) + 1
        &&& exists|k: int| 0 <= k < order.len() && self.is_answer_at(head, order, k)
    }

    /// `p` is a problem about the item at `head`, drawn validly.
    pub open spec fn generated_from(&self, head: int, p: ClusteringExamProb) -> bool {
        exists|order: Seq<usize>| self.drawn(head, order) && self.shows(head, order, p)
    }

    /// A problem about the item at `head`, with randomly drawn options: up to
    /// three distinct items from other clusters, and one answer drawn among
    /// the other members of the head's cluster whose label differs from the
    /// head's (among all its other members where none differs), in random
    /// order. It fails exactly when the head is alone in its cluster.
    pub fn gen_prob(&self, rng: &mut rand::rngs::ThreadRng, head: usize) -> (r: Result<ClusteringExamProb, ExamError>)
        requires
            head < self.data@.len(),
        ensures
            match r {
                Ok(p) => p.id == 0 && self.generated_from(head as int, p),
                Err(e) => e == ExamError::InsufficientClusterSize(self.data@[head as int].clsid)
                    && cluster_count(self.data@, self.data@[head as int].clsid) == 1,
            },
            r is Ok <==> cluster_count(self.data@, self.data@[head as int].clsid) >= 2,
    {
        let c = self.data[head].clsid;
        let mut mates: Vec<usize> = Vec::new();
        let mut unlike: Vec<usize> = Vec::new();
        let mut p: usize = 0;
        while p < self.data.len()
            invariant
                p <= self.data@.len(),
                head < self.data@.len(),
                c == self.data@[head as int].clsid,
                mates@.no_duplicates(),
                unlike@.no_duplicates(),
                forall|k: int| 0 <= k < mates@.len() ==> #[trigger] mates@[k] < p && self.in_cluster(mates@[k], c) && mates@[k] != head,
                forall|q: int| 0 <= q < p && q != head && self.data@[q].clsid == c ==> mates@.contains(q as usize),
                forall|k: int| 0 <= k < unlike@.len() ==> #[trigger] unlike@[k] < p && self.in_cluster(unlike@[k], c)
                    && self.data@[unlike@[k] as int].data@ != self.data@[head as int].data@,
                forall|q: int| 0 <= q < p && self.data@[q].clsid == c && self.data@[q].data@ != self.data@[head as int].data@
                    ==> unlike@.contains(q as usize),
            decreases self.data@.len() - p,
        {
            let ghost mates0 = mates@;
            let ghost unlike0 = unlike@;
            if self.data[p].clsid == c {
                if p != head {
                    proof {
                        lemma_push_fresh(mates@, p);
                    }
                    mates.push(p);
                    proof {
                        assert(mates@[mates@.len() - 1] == p);
                    }
                }
                if !(self.data[p].data == self.data[head].data) {
                    proof {
                        lemma_push_fresh(unlike@, p);
                    }
                    unlike.push(p);
                    proof {
                        assert(unlike@[unlike@.len() - 1] == p);
                    }
                }
            }
            proof {
                assert forall|q: int| 0 <= q < p + 1 && q != head && self.data@[q].clsid == c implies mates@.contains(q as usize) by {
                    if q < p {
                        let i = choose|i: int| 0 <= i < mates0.len() && mates0[i] == q as usize;
                        assert(mates@[i] == q as usize);
                    }
                }
                assert forall|q: int| 0 <= q < p + 1 && self.data@[q].clsid == c && self.data@[q].data@ != self.data@[head as int].data@
                    implies unlike@.contains(q as usize) by {
                    if q < p {
                        let i = choose|i: int| 0 <= i < unlike0.len() && unlike0[i] == q as usize;
                        assert(unlike@[i] == q as usize);
                    }
                }
            }
            p = p + 1;
        }
        proof {
            lemma_count_mate(self.data@, head as int);
        }
        if mates.len() == 0 {
            proof {
                if exists|q: int| 0 <= q < self.data@.len() && q != head && self.data@[q].clsid == c {
                    let q = choose|q: int| 0 <= q < self.data@.len() && q != head && self.data@[q].clsid == c;
                    assert(mates@.contains(q as usize));
                }
            }
            return Err(ExamError::InsufficientClusterSize(c));
        }
        proof {
            assert(mates@.contains(mates@[0]));
        }
        let with_unlike = unlike.len() > 0;
        let pool = if with_unlike { unlike } else { mates };
        let picked = choose_distinct(rng, &pool, 1);
        let ans = picked[0];
        proof {
            assert(pool@.contains(picked@[0]));
        }
        let others = self.others_of(c);
        let mut order = choose_distinct(rng, &others, 3);
        let ghost distractors = order@;
        proof {
            assert forall|k: int| 0 <= k < distractors.len() implies #[trigger] distractors[k] < self.data@.len() && !self.in_cluster(distractors[k], c) by {
                assert(others@.contains(distractors[k]));
            }
        }
        order.push(ans);
        let ghost before = order@;
        proof {
            assert forall|a: int, b: int| 0 <= a < before.len() && 0 <= b < before.len() && a != b implies before[a] != before[b] by {
                if a < distractors.len() && b < distractors.len() {
                    assert(distractors[a] != distractors[b]);
                } else if a < distractors.len() {
                    assert(!self.in_cluster(distractors[a], c));
                } else if b < distractors.len() {
                    assert(!self.in_cluster(distractors[b], c));
                }
            }
            assert(before.no_duplicates());
        }
        shuffle_in_place(rng, &mut order);
        proof {
            before.to_multiset_ensures();
            order@.to_multiset_ensures();
            before.lemma_multiset_has_no_duplicates();
            order@.lemma_multiset_has_no_duplicates_conv();
            assert(before[before.len() - 1] == ans);
            assert(before.contains(ans));
            assert(before.to_multiset().count(ans) > 0);
            assert(order@.to_multiset().count(ans) > 0);
            assert(order@.contains(ans));
            let k = choose|k: int| 0 <= k < order@.len() && order@[k] == ans;
            assert forall|j: int| 0 <= j < order@.len() implies #[trigger] order@[j] < self.data@.len()
                && (j != k ==> !self.in_cluster(order@[j], c)) by {
                assert(order@.contains(order@[j]));
                assert(order@.to_multiset().count(order@[j]) > 0);
                assert(before.to_multiset().count(order@[j]) > 0);
                assert(before.contains(order@[j]));
                let i = choose|i: int| 0 <= i < before.len() && before[i] == order@[j];
                if i < distractors.len() {
                    assert(distractors[i] == before[i]);
                }
            }
            assert(self.is_answer_at(head as int, order@, k));
            assert(self.in_range(order@));
        }
        let prob = self.build_prob(head, &order);
        proof {
            assert(self.drawn(head as int, order@));
        }
        Ok(prob)
    }
}


/// `a / b` rounded up.
pub open spec fn ceil_div(a: int, b: int) -> int {
    (a + b - 1) / b
}

/// `heads` is a fair choice of `count` heads among `n` positions: drawn in
/// passes of `n`, no position twice within a pass, so none more than
/// `ceil_div(count, n)` times, and every position once the count reaches `n`.
pub open spec fn fair_heads(heads: Seq<usize>, n: nat, count: nat) -> bool {
    &&& heads.len() == count
    &&& count >= n ==> forall|x: usize| x < n ==> heads.contains(x)
    &&& forall|k: int| 0 <= k < heads.len() ==> #[trigger] heads[k] < n
    &&& forall|a: int, b: int| 0 <= a < b < heads.len() && a / (n as int) == b / (n as int) ==> heads[a] != heads[b]
    &&& forall|x: usize| #[trigger] heads.to_multiset().count(x) <= ceil_div(count as int, n as int)
}

/// `n` distinct positions below `n` are all of them.
proof fn lemma_full_cover(pk: Seq<usize>, n: nat)
    requires
        pk.no_duplicates(),
        pk.len() == n,
        forall|k: int| 0 <= k < pk.len() ==> #[trigger] pk[k] < n,
    ensures
        forall|x: usize| x < n ==> pk.contains(x),
{
    let m = pk.map_values(|x: usize| x as int);
    assert forall|i: int, j: int| 0 <= i < m.len() && 0 <= j < m.len() && i != j implies m[i] != m[j] by {
        assert(pk[i] != pk[j]);
    }
    assert(m.no_duplicates());
    m.unique_seq_to_set();
    let range = vstd::set_lib::set_int_range(0, n as int);
    vstd::set_lib::lemma_int_range(0, n as int);
    vstd::seq_lib::seq_to_set_is_finite(m);
    assert forall|y: int| m.to_set().contains(y) implies range.contains(y) by {
        assert(m.contains(y));
        let k = choose|k: int| 0 <= k < m.len() && m[k] == y;
        assert(pk[k] < n);
    }
    vstd::set_lib::lemma_subset_equality(m.to_set(), range);
    assert forall|x: usize| x < n implies pk.contains(x) by {
        assert(range.contains(x as int));
        assert(m.to_set().contains(x as int));
        assert(m.contains(x as int));
        let k = choose|k: int| 0 <= k < m.len() && m[k] == x as int;
        assert(pk[k] == x);
    }
}

proof fn lemma_passes_bound(passes: int, n: int, count: int)
    requires
        n > 0,
        passes >= 0,
        count >= 0,
        passes * n < count + n,
    ensures
        passes <= ceil_div(count, n),
{
    let q = (count + n - 1) / n;
    assert(count + n - 1 < q * n + n) by (nonlinear_arith)
        requires
            q == (count + n - 1) / n,
            n > 0,
    ;
    if passes > q {
        assert(passes * n >= (q + 1) * n) by (nonlinear_arith)
            requires
                passes >= q + 1,
                n > 0,
        ;
        assert((q + 1) * n == q * n + n) by (nonlinear_arith);
    }
}

proof fn lemma_pass_index(a: int, n: int, passes: int)
    requires
        n > 0,
        0 <= a,
        passes >= 0,
    ensures
        a < passes * n ==> a / n < passes,
        a >= passes * n ==> a / n >= passes,
{
    assert(a < passes * n ==> a / n < passes) by (nonlinear_arith)
        requires
            n > 0,
            0 <= a,
    ;
    assert(a >= passes * n ==> a / n >= passes) by (nonlinear_arith)
        requires
            n > 0,
            0 <= a,
            passes >= 0,
    ;
}

impl ClusteringExam {
    /// The positions of all items, in order.
    fn all_positions(&self) -> (r: Vec<usize>)
        ensures
            r@.len() == self.data@.len(),
            r@.no_duplicates(),
            forall|k: int| 0 <= k < r@.len() ==> #[trigger] r@[k] == k,
    {
        let mut out: Vec<usize> = Vec::new();
        let mut p: usize = 0;
        while p < self.data.len()
            invariant
                p <= self.data@.len(),
                out@.len() == p,
                out@.no_duplicates(),
                forall|k: int| 0 <= k < out@.len() ==> #[trigger] out@[k] == k,
            decreases self.data@.len() - p,
        {
            proof {
                lemma_push_fresh(out@, p);
            }
            out.push(p);
            p = p + 1;
        }
        out
    }

    /// `count` head positions, drawn in passes over the whole dataset: each
    /// pass takes distinct positions at random, and passes repeat until
    /// `count` heads are drawn.
    pub fn head_positions(&self, rng: &mut rand::rngs::ThreadRng, count: usize) -> (r: Vec<usize>)
        requires
            self.data@.len() > 0,
        ensures
            fair_heads(r@, self.data@.len(), count as nat),
    {
        let n = self.data.len();
        let all = self.all_positions();
        let mut heads: Vec<usize> = Vec::new();
        let ghost mut passes: int = 0;
        let ghost mut cap: int = 0;
        proof {
            heads@.to_multiset_ensures();
            assert forall|x: usize| #[trigger] heads@.to_multiset().count(x) <= 0 by {
                assert(!heads@.contains(x));
            }
        }
        while heads.len() < count
            invariant
                n == self.data@.len(),
                n > 0,
                all@.len() == n,
                all@.no_duplicates(),
                forall|k: int| 0 <= k < all@.len() ==> #[trigger] all@[k] == k,
                passes >= 0,
                cap == passes * n,
                cap < count + n,
                heads@.len() <= count,
                heads@.len() == if cap <= count { cap } else { count as int },
                forall|k: int| 0 <= k < heads@.len() ==> #[trigger] heads@[k] < n,
                forall|a: int, b: int| 0 <= a < b < heads@.len() && a / (n as int) == b / (n as int) ==> heads@[a] != heads@[b],
                forall|x: usize| #[trigger] heads@.to_multiset().count(x) <= passes,
                count >= n && passes >= 1 ==> forall|x: usize| x < n ==> heads@.contains(x),
            decreases count - heads@.len(),
        {
            let remaining = count - heads.len();
            let amount = if n < remaining { n } else { remaining };
            let mut picks = choose_distinct(rng, &all, amount);
            let ghost old_heads = heads@;
            let ghost pk = picks@;
            proof {
                assert forall|k: int| 0 <= k < pk.len() implies #[trigger] pk[k] < n by {
                    assert(all@.contains(pk[k]));
                }
                pk.lemma_multiset_has_no_duplicates();
                pk.to_multiset_ensures();
                vstd::seq_lib::lemma_multiset_commutative(old_heads, pk);
            }
            heads.append(&mut picks);
            proof {
                let l = old_heads.len() as int;
                assert(l == cap);
                assert(heads@ =~= old_heads + pk);
                assert forall|k: int| 0 <= k < heads@.len() implies #[trigger] heads@[k] < n by {
                    if k >= l {
                        assert(heads@[k] == pk[k - l]);
                    }
                }
                assert forall|a: int, b: int| 0 <= a < b < heads@.len() && a / (n as int) == b / (n as int) implies heads@[a] != heads@[b] by {
                    lemma_pass_index(a, n as int, passes);
                    lemma_pass_index(b, n as int, passes);
                    if b < l {
                    } else if a < l {
                    } else {
                        assert(heads@[a] == pk[a - l]);
                        assert(heads@[b] == pk[b - l]);
                    }
                }
                assert forall|x: usize| #[trigger] heads@.to_multiset().count(x) <= passes + 1 by {
                    if pk.to_multiset().contains(x) {
                    } else {
                        assert(pk.to_multiset().count(x) == 0);
                    }
                }
                if count >= n {
                    if passes == 0 {
                        assert(pk.len() == n);
                        lemma_full_cover(pk, n as nat);
                    }
                    assert forall|x: usize| x < n implies heads@.contains(x) by {
                        if passes >= 1 {
                            assert(old_heads.contains(x));
                            let k = choose|k: int| 0 <= k < old_heads.len() && old_heads[k] == x;
                            assert(heads@[k] == x);
                        } else {
                            assert(pk.contains(x));
                            let k = choose|k: int| 0 <= k < pk.len() && pk[k] == x;
                            assert(heads@[l + k] == x);
                        }
                    }
                }
                assert((passes + 1) * n == passes * n + n) by (nonlinear_arith);
                passes = passes + 1;
                cap = cap + n;
            }
        }
        proof {
            lemma_passes_bound(passes, n as int, count as int);
        }
        heads
    }
}


/// Every item shares its cluster with at least one other item.
pub open spec fn all_paired(s: Seq<ClusteringItem>) -> bool {
    forall|i: int| 0 <= i < s.len() ==> cluster_count(s, (#[trigger] s[i]).clsid) >= 2
}

/// The clusters other than `c` number no more than the items outside `c`.
pub proof fn lemma_others_cover_ids(s: Seq<ClusteringItem>, c: i32)
    ensures
        cluster_ids(s).finite(),
        cluster_ids(s).remove(c).len() <= others_count(s, c),
    decreases s.len(),
{
    if s.len() == 0 {
        assert(cluster_ids(s) =~= Set::empty());
    } else {
        let t = s.drop_last();
        let x = s.last().clsid;
        lemma_others_cover_ids(t, c);
        assert forall|y: i32| cluster_ids(s).contains(y) <==> cluster_ids(t).insert(x).contains(y) by {
            if cluster_ids(s).contains(y) {
                let i = choose|i: int| 0 <= i < s.len() && s[i].clsid == y;
                if i < t.len() {
                    assert(t[i].clsid == y);
                }
            }
            if cluster_ids(t).contains(y) {
                let i = choose|i: int| 0 <= i < t.len() && t[i].clsid == y;
                assert(s[i].clsid == y);
            }
            if y == x {
                assert(s[s.len() - 1].clsid == y);
            }
        }
        assert(cluster_ids(s) =~= cluster_ids(t).insert(x));
        if x == c {
            assert(cluster_ids(s).remove(c) =~= cluster_ids(t).remove(c));
        } else {
            assert(cluster_ids(s).remove(c) =~= cluster_ids(t).remove(c).insert(x));
        }
    }
}

/// With at least four clusters, every cluster has at least three items
/// outside it.
pub proof fn lemma_enough_distractors(s: Seq<ClusteringItem>, c: i32)
    requires
        cluster_ids(s).len() >= 4,
    ensures
        others_count(s, c) >= 3,
{
    lemma_others_cover_ids(s, c);
}

impl ClusteringExam {
    /// `v` is a batch of `count` problems numbered in order, about fairly
    /// chosen heads, each drawn validly.
    pub open spec fn batch_of(&self, v: Seq<ClusteringExamProb>, count: nat) -> bool {
        exists|heads: Seq<usize>|
            fair_heads(heads, self.data@.len(), count) && v.len() == count
            && forall|i: int| 0 <= i < v.len() ==> (#[trigger] v[i]).id == i && self.generated_from(heads[i] as int, v[i])
    }

    /// A batch of `count` problems, drawn with `rng`.
    pub fn gen_probs_with(&self, rng: &mut rand::rngs::ThreadRng, count: usize) -> (r: Result<Vec<ClusteringExamProb>, ExamError>)
        requires
            count <= i32::MAX,
        ensures
            match r {
                Ok(v) => (self.data@.len() == 0 ==> v@.len() == 0)
                    && (self.data@.len() > 0 ==> self.batch_of(v@, count as nat)),
                Err(e) => exists|i: int| 0 <= i < self.data@.len()
                    && e == ExamError::InsufficientClusterSize(self.data@[i].clsid)
                    && cluster_count(self.data@, self.data@[i].clsid) == 1,
            },
            self.data@.len() == 0 || count == 0 ==> match r {
                Ok(v) => v@.len() == 0,
                Err(_) => false,
            },
            all_paired(self.data@) ==> r is Ok,
            count >= self.data@.len() ==> (r is Ok <==> all_paired(self.data@)),
            all_paired(self.data@) && cluster_ids(self.data@).len() >= 4 ==> match r {
                Ok(v) => forall|i: int| 0 <= i < v@.len() ==> (#[trigger] v@[i]).opts@.len() == 4,
                Err(_) => false,
            },
    {
        if self.data.len() == 0 {
            return Ok(Vec::new());
        }
        let heads = self.head_positions(rng, count);
        let ghost rich = all_paired(self.data@) && cluster_ids(self.data@).len() >= 4;
        let mut out: Vec<ClusteringExamProb> = Vec::new();
        let mut i: usize = 0;
        while i < heads.len()
            invariant
                count <= i32::MAX,
                fair_heads(heads@, self.data@.len(), count as nat),
                i <= heads@.len(),
                out@.len() == i,
                rich == (all_paired(self.data@) && cluster_ids(self.data@).len() >= 4),
                forall|k: int| 0 <= k < i ==> (#[trigger] out@[k]).id == k && self.generated_from(heads@[k] as int, out@[k]),
                rich ==> forall|k: int| 0 <= k < i ==> (#[trigger] out@[k]).opts@.len() == 4,
                forall|k: int| 0 <= k < i ==> cluster_count(self.data@, self.data@[#[trigger] heads@[k] as int].clsid) >= 2,
            decreases heads@.len() - i,
        {
            let h = heads[i];
            match self.gen_prob(rng, h) {
                Ok(p) => {
                    let q = p.id_changed(i as i32);
                    proof {
                        let order = choose|order: Seq<usize>| self.drawn(h as int, order) && self.shows(h as int, order, p);
                        assert(self.shows(h as int, order, q));
                        if rich {
                            lemma_enough_distractors(self.data@, self.data@[h as int].clsid);
                        }
                    }
                    out.push(q);
                    proof {
                        assert(out@[i as int] == q);
                    }
                },
                Err(e) => {
                    proof {
                        if all_paired(self.data@) {
                            assert(cluster_count(self.data@, self.data@[h as int].clsid) >= 2);
                        }
                    }
                    return Err(e);
                },
            }
            i = i + 1;
        }
        proof {
            assert(self.batch_of(out@, count as nat));
            if count >= self.data@.len() {
                assert forall|j: int| 0 <= j < self.data@.len() implies cluster_count(self.data@, (#[trigger] self.data@[j]).clsid) >= 2 by {
                    assert(heads@.contains(j as usize));
                    let k = choose|k: int| 0 <= k < heads@.len() && heads@[k] == j as usize;
                    assert(cluster_count(self.data@, self.data@[heads@[k] as int].clsid) >= 2);
                }
            }
        }
        Ok(out)
    }

    /// A batch of `count` problems, drawn with the thread's random generator.
    pub fn gen_probs(&self, count: usize) -> (r: Result<Vec<ClusteringExamProb>, ExamError>)
        requires
            count <= i32::MAX,
        ensures
            match r {
                Ok(v) => (self.data@.len() == 0 ==> v@.len() == 0)
                    && (self.data@.len() > 0 ==> self.batch_of(v@, count as nat)),
                Err(e) => exists|i: int| 0 <= i < self.data@.len()
                    && e == ExamError::InsufficientClusterSize(self.data@[i].clsid)
                    && cluster_count(self.data@, self.data@[i].clsid) == 1,
            },
            self.data@.len() == 0 || count == 0 ==> match r {
                Ok(v) => v@.len() == 0,
                Err(_) => false,
            },
            all_paired(self.data@) ==> r is Ok,
            count >= self.data@.len() ==> (r is Ok <==> all_paired(self.data@)),
            all_paired(self.data@) && cluster_ids(self.data@).len() >= 4 ==> match r {
                Ok(v) => forall|i: int| 0 <= i < v@.len() ==> (#[trigger] v@[i]).opts@.len() == 4,
                Err(_) => false,
            },
    {
        let mut rng = fresh_rng();
        self.gen_probs_with(&mut rng, count)
    }
}

} // verus!
