//! Assembling a problem from the options drawn for it.
use crate::exam::{group, ClusteringExam, ClusteringExamProb, ClusteringExamProbOption, ClusteringItem};
use vstd::prelude::*;

verus! {


/// The labels of `g`, each preceded by a space.
pub open spec fn label_list(g: Seq<ClusteringItem>) -> Seq<char>
    decreases g.len(),
{
    if g.len() == 0 {
        Seq::empty()
    } else {
        label_list(g.drop_last()) + seq![' '] + g.last().data@
    }
}

/// The explanation of a problem whose head lies in cluster `c`.
pub open spec fn explanation(s: Seq<ClusteringItem>, c: i32) -> Seq<char> {
    "以下字符同类："@ + label_list(group(s, c))
}

impl ClusteringExamProb {
    /// The same problem, numbered `id`.
    pub fn id_changed(self, id: i32) -> (r: Self)
        ensures
            r.id == id,
            r.answer == self.answer,
            r.head == self.head,
            r.explain == self.explain,
            r.opts == self.opts,
    {
        ClusteringExamProb { id, ..self }
    }
}

impl ClusteringExamProbOption {
    /// One option per item, numbered by position and showing the item's label.
    pub fn opts_from_items(v: &[ClusteringItem]) -> (r: Vec<Self>)
        requires
            v@.len() <= i32::MAX,
        ensures
            r@.len() == v@.len(),
            forall|k: int| 0 <= k < v@.len() ==> (#[trigger] r@[k]).id == k && r@[k].html@ == v@[k].data@,
    {
        let mut out: Vec<Self> = Vec::new();
        let mut i: usize = 0;
        while i < v.len()
            invariant
                i <= v@.len(),
                v@.len() <= i32::MAX,
                out@.len() == i,
                forall|k: int| 0 <= k < i ==> (#[trigger] out@[k]).id == k && out@[k].html@ == v@[k].data@,
            decreases v@.len() - i,
        {
            out.push(ClusteringExamProbOption { id: i as i32, html: v[i].data.clone() });
            i = i + 1;
        }
        out
    }
}

impl ClusteringExam {
    /// Every position in `order` is a position of the dataset.
    pub open spec fn in_range(&self, order: Seq<usize>) -> bool {
        forall|k: int| 0 <= k < order.len() ==> (#[trigger] order[k]) < self.data@.len()
    }

    /// The item at position `p` lies in cluster `c`.
    pub open spec fn in_cluster(&self, p: usize, c: i32) -> bool {
        self.data@[p as int].clsid == c
    }

    /// `p` asks about the item at `head` and shows, in order, the items at
    /// `order`; its answer is the first of them in the head's cluster.
    pub open spec fn shows(&self, head: int, order: Seq<usize>, p: ClusteringExamProb) -> bool {
        let c = self.data@[head].clsid;
        &&& p.head@ == self.data@[head].data@
        &&& p.explain@ == explanation(self.data@, c)
        &&& p.opts@.len() == order.len()
        &&& forall|k: int| 0 <= k < order.len() ==> (#[trigger] p.opts@[k]).id == k && p.opts@[k].html@ == self.data@[order[k] as int].data@
        &&& 0 <= p.answer < order.len()
        &&& self.in_cluster(order[p.answer as int], c)
        &&& forall|k: int| 0 <= k < p.answer ==> !self.in_cluster(#[trigger] order[k], c)
    }

    /// The text of the explanation for cluster `c`.
    pub fn explain_cluster(&self, c: i32) -> (r: String)
        ensures
            r@ == explanation(self.data@, c),
    {
        let g = self.cluster_items(c);
        let mut out = String::from_str("以下字符同类：");
        let mut i: usize = 0;
        while i < g.len()
            invariant
                i <= g@.len(),
                g@ == group(self.data@, c),
                out@ == "以下字符同类："@ + label_list(g@.subrange(0, i as int)),
            decreases g@.len() - i,
        {
            proof {
                assert(g@.subrange(0, i + 1).drop_last() =~= g@.subrange(0, i as int));
            }
            out.append(" ");
            out.append(g[i].data.as_str());
            proof {
                reveal_strlit(" ");
                assert(out@ =~= "以下字符同类："@ + label_list(g@.subrange(0, i + 1)));
            }
            i = i + 1;
        }
        proof {
            assert(g@.subrange(0, i as int) =~= g@);
        }
        out
    }

    /// The problem about the item at `head` whose options show, in order,
    /// the items at `order`.
    pub fn build_prob(&self, head: usize, order: &Vec<usize>) -> (r: ClusteringExamProb)
        requires
            head < self.data@.len(),
            self.in_range(order@),
            order@.len() <= i32::MAX,
            exists|k: int| 0 <= k < order@.len() && self.in_cluster(#[trigger] order@[k], self.data@[head as int].clsid),
        ensures
            r.id == 0,
            self.shows(head as int, order@, r),
    {
        let c = self.data[head].clsid;
        let mut items: Vec<ClusteringItem> = Vec::new();
        let mut i: usize = 0;
        while i < order.len()
            invariant
                i <= order@.len(),
                self.in_range(order@),
                items@.len() == i,
                forall|k: int| 0 <= k < i ==> #[trigger] items@[k] == self.data@[order@[k] as int],
            decreases order@.len() - i,
        {
            items.push(self.data[order[i]].duplicate());
            i = i + 1;
        }
        let mut answer: usize = 0;
        while answer < items.len() && items[answer].clsid != c
            invariant
                answer <= items@.len(),
                items@.len() == order@.len(),
                forall|k: int| 0 <= k < order@.len() ==> #[trigger] items@[k] == self.data@[order@[k] as int],
                forall|k: int| 0 <= k < answer ==> !self.in_cluster(#[trigger] order@[k], c),
            decreases items@.len() - answer,
        {
            answer = answer + 1;
        }
        proof {
            let w = choose|k: int| 0 <= k < order@.len() && self.in_cluster(#[trigger] order@[k], c);
            if answer >= items@.len() {
                assert(!self.in_cluster(order@[w], c));
            }
        }
        let opts = ClusteringExamProbOption::opts_from_items(items.as_slice());
        ClusteringExamProb {
            id: 0,
            answer: answer as i32,
            head: self.data[head].data.clone(),
            explain: self.explain_cluster(c),
            opts,
        }
    }
}

} // verus!
