//! The per-sample collapsing state: a disjoint set over the transcripts and
//! one merge tree per group.  Applying a merge unions two groups and records
//! the event as a new internal node over the two group trees; the tree at a
//! group's root always covers exactly the group's members.  Candidate edges
//! carry a precomputed order key, and the next edge to merge is the lowest
//! active one, ties broken by endpoint indices, so a run is reproducible.

use vstd::prelude::*;
use petgraph::unionfind::UnionFind;
use crate::disjoint::{
    class_seq, class_seq_upto, lemma_class_upto_props, uf_find, uf_merged, uf_model, uf_new,
    uf_union, uf_wf,
};
use crate::ids::{seq_ints, GroupId};
use crate::tree::{canonical_seq, is_internal, is_leaf, leaves, MergeTree};

verus! {

/// Some listed group holds `t`.
pub open spec fn listed_in(groups: Seq<GroupId>, t: int) -> bool {
    exists|j: int| 0 <= j < groups.len() && (#[trigger] groups[j])@.contains(t)
}

/// A candidate merge between two transcripts, with the score key that
/// orders candidates: lower keys are better ties.
pub struct CollapseEdge {
    pub u: usize,
    pub v: usize,
    pub score_key: u64,
}

/// The collapsing state of one sample.
pub struct CollapseForest {
    pub uf: UnionFind<usize>,
    pub trees: Vec<MergeTree>,
    pub ntxps: usize,
}

impl CollapseForest {
    /// The disjoint-set contents.
    pub open spec fn model(self) -> Map<int, int> {
        uf_model(self.uf)
    }

    /// Well-formed state: the disjoint set covers `0..ntxps`, there is one
    /// tree slot per transcript, and the tree at each group root covers
    /// exactly the group's members.
    pub open spec fn wf(self) -> bool {
        &&& uf_wf(self.model(), self.ntxps as int)
        &&& self.trees@.len() == self.ntxps as int
        &&& forall|r: int| 0 <= r < self.ntxps as int && self.model()[r] == r
            ==> canonical_seq(#[trigger] self.trees@[r]) == class_seq(
                self.model(),
                r,
                self.ntxps as int,
            )
    }

    /// A fresh state: every transcript is its own group, with a leaf tree.
    pub fn new(ntxps: usize) -> (r: CollapseForest)
        ensures
            r.wf(),
            r.ntxps == ntxps,
            forall|x: int| 0 <= x < ntxps as int ==> #[trigger] r.model()[x] == x,
            forall|x: int| 0 <= x < ntxps as int ==> is_leaf(#[trigger] r.trees@[x], x as u64),
    {
        let uf = uf_new(ntxps);
        let mut trees: Vec<MergeTree> = Vec::new();
        let mut i: usize = 0;
        while i < ntxps
            invariant
                i <= ntxps,
                trees@.len() == i,
                forall|x: int| 0 <= x < i ==> is_leaf(#[trigger] trees@[x], x as u64),
        decreases ntxps - i,
        {
            trees.push(MergeTree::Leaf(i as u64));
            i += 1;
        }
        let r = CollapseForest { uf, trees, ntxps };
        proof {
            let m = r.model();
            assert(m.dom() =~= Set::new(|x: int| 0 <= x < ntxps as int));
            assert forall|root: int| 0 <= root < ntxps as int && m[root] == root
                implies canonical_seq(#[trigger] r.trees@[root]) == class_seq(
                m,
                root,
                ntxps as int,
            ) by {
                lemma_class_upto_props(m, root, ntxps as int);
                let cls = class_seq(m, root, ntxps as int);
                assert(r.trees@[root] == MergeTree::Leaf(root as u64));
                assert(leaves(r.trees@[root]) == seq![root]);
                crate::tree::lemma_sort_of_sorted(seq![root]);
                assert(canonical_seq(r.trees@[root]) == seq![root]);
                assert(cls.contains(root));
                assert forall|x: int| #[trigger] cls.contains(x) implies x == root by {}
                assert(cls.len() == 1) by {
                    if cls.len() >= 2 {
                        assert(cls[0] != cls[1]);
                        assert(cls.contains(cls[0]));
                        assert(cls.contains(cls[1]));
                    }
                }
                assert(cls =~= seq![root]) by {
                    assert(cls[0] == root) by {
                        assert(cls.contains(cls[0]));
                    }
                }
            }
        }
        r
    }

    /// The root of the group holding `t`.
    pub fn find(&self, t: usize) -> (r: usize)
        requires
            self.wf(),
            t < self.ntxps,
        ensures
            r as int == self.model()[t as int],
            r < self.ntxps,
    {
        proof {
            assert(self.model().contains_key(t as int));
        }
        let r = uf_find(&self.uf, t);
        proof {
            assert(self.model().dom().contains(r as int));
        }
        r
    }

    /// The merge tree of the group holding `t`.
    pub fn group_tree(&self, t: usize) -> (r: &MergeTree)
        requires
            self.wf(),
            t < self.ntxps,
        ensures
            canonical_seq(*r) == class_seq(self.model(), self.model()[t as int], self.ntxps as int),
    {
        let root = self.find(t);
        proof {
            assert(self.model()[root as int] == root as int);
        }
        &self.trees[root]
    }


    /// Lists every group: for each representative, in ascending order, the
    /// ascending members of its group.  Together the listed groups cover
    /// every transcript exactly once.
    pub fn groups_of(&self) -> (r: Vec<GroupId>)
        requires
            self.wf(),
        ensures
            forall|j: int| 0 <= j < r@.len() ==> (#[trigger] r@[j]).wf(),
            forall|j: int| 0 <= j < r@.len() ==> (#[trigger] r@[j])@ == class_seq(
                self.model(),
                self.model()[r@[j]@[0]],
                self.ntxps as int,
            ),
            forall|t: int| 0 <= t < self.ntxps as int ==> #[trigger] listed_in(r@, t),
            forall|j1: int, j2: int, t: int| 0 <= j1 < j2 < r@.len()
                ==> !(#[trigger] r@[j1]@.contains(t) && #[trigger] r@[j2]@.contains(t)),
    {
        let ghost m = self.model();
        let ghost n = self.ntxps as int;
        let mut out: Vec<GroupId> = Vec::new();
        let mut root: usize = 0;
        while root < self.ntxps
            invariant
                root <= self.ntxps,
                self.wf(),
                m == self.model(),
                n == self.ntxps as int,
                forall|j: int| 0 <= j < out@.len() ==> (#[trigger] out@[j]).wf(),
                forall|j: int| 0 <= j < out@.len()
                    ==> (#[trigger] out@[j])@ == class_seq(m, m[out@[j]@[0]], n),
                forall|j: int| 0 <= j < out@.len()
                    ==> 0 <= m[(#[trigger] out@[j])@[0]] < root as int,
                forall|j1: int, j2: int| 0 <= j1 < j2 < out@.len()
                    ==> m[(#[trigger] out@[j1])@[0]] < m[(#[trigger] out@[j2])@[0]],
                forall|p: int| 0 <= p < root as int && #[trigger] m[p] == p ==> exists|j: int|
                    0 <= j < out@.len() && m[(#[trigger] out@[j])@[0]] == p,
            decreases self.ntxps - root,
        {
            let rt = self.find(root);
            if rt == root {
                let members = crate::disjoint::class_of(&self.uf, root, self.ntxps);
                proof {
                    lemma_class_upto_props(m, root as int, n);
                    assert(class_seq(m, root as int, n).contains(root as int));
                    assert(seq_ints(members@).len() >= 1);
                    assert(members@.len() == seq_ints(members@).len());
                }
                let g = GroupId::from_sorted(members);
                let ghost out0 = out@;
                out.push(g);
                proof {
                    assert(out@.drop_last() =~= out0);
                    let anchor = out@[out@.len() - 1]@[0];
                    assert(class_seq(m, root as int, n).contains(anchor)) by {
                        assert(out@[out@.len() - 1]@[0] == class_seq(m, root as int, n)[0]);
                        assert(class_seq(m, root as int, n).len() >= 1);
                    }
                    assert(m[anchor] == root as int);
                    assert forall|p: int| 0 <= p < root as int + 1 && #[trigger] m[p] == p
                        implies exists|j: int| 0 <= j < out@.len()
                            && m[(#[trigger] out@[j])@[0]] == p by {
                        if p < root as int {
                            let j = choose|j: int| 0 <= j < out0.len()
                                && m[(#[trigger] out0[j])@[0]] == p;
                            assert(m[out@[j]@[0]] == p);
                        } else {
                            assert(m[out@[out@.len() - 1]@[0]] == p);
                        }
                    }
                }
            }
            root += 1;
        }
        proof {
            assert forall|t: int| 0 <= t < n implies #[trigger] listed_in(out@, t) by {
                assert(m.contains_key(t));
                let p = m[t];
                assert(m.contains_key(p) && m[p] == p);
                assert(0 <= p < n) by {
                    assert(m.dom().contains(p));
                }
                let j = choose|j: int| 0 <= j < out@.len() && m[(#[trigger] out@[j])@[0]] == p;
                lemma_class_upto_props(m, p, n);
                assert(out@[j]@ == class_seq(m, p, n));
                assert(class_seq(m, p, n).contains(t));
                assert(out@[j]@.contains(t));
            }
            assert forall|j1: int, j2: int, t: int| 0 <= j1 < j2 < out@.len()
                implies !(#[trigger] out@[j1]@.contains(t) && #[trigger] out@[j2]@.contains(t))
                by {
                if out@[j1]@.contains(t) && out@[j2]@.contains(t) {
                    let p1 = m[out@[j1]@[0]];
                    let p2 = m[out@[j2]@[0]];
                    lemma_class_upto_props(m, p1, n);
                    lemma_class_upto_props(m, p2, n);
                    assert(m[t] == p1);
                    assert(m[t] == p2);
                    assert(p1 < p2);
                }
            }
        }
        out
    }

    /// Applies one merge: unions the groups of `a` and `b` and hangs their
    /// two trees under a new internal node, `a`'s group on the left.  Does
    /// nothing when the two already share a group.
    pub fn merge_targets(&mut self, a: usize, b: usize) -> (merged: bool)
        requires
            old(self).wf(),
            a < old(self).ntxps,
            b < old(self).ntxps,
        ensures
            final(self).wf(),
            final(self).ntxps == old(self).ntxps,
            merged == (old(self).model()[a as int] != old(self).model()[b as int]),
            exists|rep: int|
                #[trigger] uf_merged(old(self).model(), final(self).model(), a as int, b as int, rep),
            merged ==> is_internal(
                final(self).trees@[final(self).model()[a as int]],
                old(self).trees@[old(self).model()[a as int]],
                old(self).trees@[old(self).model()[b as int]],
            ),
            !merged ==> final(self).trees@ == old(self).trees@,
    {
        let ghost m0 = self.model();
        let ghost n = self.ntxps as int;
        let ra = self.find(a);
        let rb = self.find(b);
        if ra == rb {
            proof {
                let rep = m0[a as int];
                assert(uf_merged(m0, m0, a as int, b as int, rep)) by {
                    assert(m0.dom() =~= m0.dom());
                }
            }
            return false;
        }
        let ta = self.trees[ra].clone_tree();
        let tb = self.trees[rb].clone_tree();
        let merged_tree = MergeTree::Node(Box::new(ta), Box::new(tb));
        let _ = uf_union(&mut self.uf, a, b);
        let rep = uf_find(&self.uf, a);
        self.trees[rep] = merged_tree;
        proof {
            let m1 = self.model();
            let repg = choose|repg: int| #[trigger] uf_merged(m0, m1, a as int, b as int, repg);
            assert(m1[a as int] == repg);
            assert(rep as int == repg);
            assert(repg == m0[a as int] || repg == m0[b as int]);
            assert(m0[ra as int] == ra as int);
            assert(m0[rb as int] == rb as int);
            assert(0 <= repg < n);
            assert(self.trees@.len() == n);
            assert(is_internal(self.trees@[repg], old(self).trees@[ra as int],
                old(self).trees@[rb as int]));
            assert forall|root: int| 0 <= root < n && m1[root] == root
                implies canonical_seq(#[trigger] self.trees@[root]) == class_seq(m1, root, n) by {
                if root == repg {
                    lemma_class_merge(m0, m1, a as int, b as int, repg, n);
                    let ca = class_seq(m0, ra as int, n);
                    let cb = class_seq(m0, rb as int, n);
                    assert(canonical_seq(old(self).trees@[ra as int]) == ca);
                    assert(canonical_seq(old(self).trees@[rb as int]) == cb);
                    let t = self.trees@[repg];
                    assert(leaves(t) == leaves(old(self).trees@[ra as int]) + leaves(
                        old(self).trees@[rb as int],
                    ));
                    crate::tree::lemma_canonical_props(old(self).trees@[ra as int]);
                    crate::tree::lemma_canonical_props(old(self).trees@[rb as int]);
                    crate::tree::lemma_canonical_props(t);
                    vstd::seq_lib::lemma_multiset_commutative(
                        leaves(old(self).trees@[ra as int]),
                        leaves(old(self).trees@[rb as int]),
                    );
                    assert(leaves(t).to_multiset() =~= ca.to_multiset().add(cb.to_multiset()));
                    assert(canonical_seq(t).to_multiset() == class_seq(m1, repg, n).to_multiset());
                    lemma_class_upto_props(m1, repg, n);
                    assert(crate::ids::sorted(class_seq(m1, repg, n)));
                    crate::tree::lemma_sorted_same_multiset(
                        canonical_seq(t),
                        class_seq(m1, repg, n),
                    );
                    assert(canonical_seq(t) == class_seq(m1, repg, n));
                } else {
                    assert(m0.contains_key(root));
                    assert(m0[root] == root) by {
                        if m0[root] == m0[a as int] || m0[root] == m0[b as int] {
                            assert(m1[root] == repg);
                        }
                    }
                    assert(root != ra as int && root != rb as int) by {
                        if root == ra as int {
                            assert(m1[root] == repg);
                        }
                        if root == rb as int {
                            assert(m1[root] == repg);
                        }
                    }
                    assert(self.trees@[root] == old(self).trees@[root]);
                    assert(class_seq(m1, root, n) == class_seq(m0, root, n)) by {
                        lemma_class_same(m0, m1, a as int, b as int, repg, root, n);
                    }
                }
            }
            assert(self.wf());
        }
        true
    }
}

/// After a union, the class of the surviving representative is, as a
/// multiset, the union of the two old classes; as a sorted sequence it is
/// determined by that.
proof fn lemma_class_merge(m0: Map<int, int>, m1: Map<int, int>, a: int, b: int, rep: int, n: int)
    requires
        uf_wf(m0, n),
        0 <= a < n,
        0 <= b < n,
        m0[a] != m0[b],
        uf_merged(m0, m1, a, b, rep),
    ensures
        class_seq(m1, rep, n).to_multiset() == class_seq(m0, m0[a], n).to_multiset().add(
            class_seq(m0, m0[b], n).to_multiset(),
        ),
{
    lemma_class_merge_upto(m0, m1, a, b, rep, n, n);
}

/// Inductive core of `lemma_class_merge`.
proof fn lemma_class_merge_upto(
    m0: Map<int, int>,
    m1: Map<int, int>,
    a: int,
    b: int,
    rep: int,
    n: int,
    i: int,
)
    requires
        uf_wf(m0, n),
        0 <= a < n,
        0 <= b < n,
        m0[a] != m0[b],
        uf_merged(m0, m1, a, b, rep),
        0 <= i <= n,
    ensures
        class_seq_upto(m1, rep, i).to_multiset() == class_seq_upto(m0, m0[a], i).to_multiset().add(
            class_seq_upto(m0, m0[b], i).to_multiset(),
        ),
    decreases i,
{
    broadcast use vstd::seq_lib::group_to_multiset_ensures;
    broadcast use vstd::multiset::group_multiset_axioms;

    reveal(Seq::filter);
    if i == 0 {
        assert(Seq::new(0, |k: int| k).len() == 0);
        assert(class_seq_upto(m1, rep, 0).to_multiset() =~= class_seq_upto(
            m0,
            m0[a],
            0,
        ).to_multiset().add(class_seq_upto(m0, m0[b], 0).to_multiset()));
    } else {
        lemma_class_merge_upto(m0, m1, a, b, rep, n, i - 1);
        let base = Seq::new(i as nat, |k: int| k);
        assert(base.drop_last() =~= Seq::new((i - 1) as nat, |k: int| k));
        assert(base.last() == i - 1);
        let x = i - 1;
        assert(m0.contains_key(x)) by {
            assert(m0.dom().contains(x));
        }
        assert(m1[x] == if m0[x] == m0[a] || m0[x] == m0[b] { rep } else { m0[x] });
        assert(rep == m0[a] || rep == m0[b]);
        assert(m0[m0[a]] == m0[a] && m0[m0[b]] == m0[b]) by {
            assert(m0.contains_key(a));
            assert(m0.contains_key(b));
        }
        let c1 = class_seq_upto(m1, rep, i);
        let c1p = class_seq_upto(m1, rep, i - 1);
        let ca = class_seq_upto(m0, m0[a], i);
        let cap = class_seq_upto(m0, m0[a], i - 1);
        let cb = class_seq_upto(m0, m0[b], i);
        let cbp = class_seq_upto(m0, m0[b], i - 1);
        assert(c1 == if m1[x] == rep { c1p.push(x) } else { c1p });
        assert(ca == if m0[x] == m0[a] { cap.push(x) } else { cap });
        assert(cb == if m0[x] == m0[b] { cbp.push(x) } else { cbp });
        if m0[x] == m0[a] {
            assert(m1[x] == rep);
            assert(c1.to_multiset() =~= ca.to_multiset().add(cb.to_multiset()));
        } else if m0[x] == m0[b] {
            assert(m1[x] == rep);
            assert(c1.to_multiset() =~= ca.to_multiset().add(cb.to_multiset()));
        } else {
            assert(m1[x] == m0[x]);
            assert(m1[x] != rep);
            assert(c1.to_multiset() =~= ca.to_multiset().add(cb.to_multiset()));
        }
    }
}

/// A class not involved in a union is unchanged by it.
proof fn lemma_class_same(
    m0: Map<int, int>,
    m1: Map<int, int>,
    a: int,
    b: int,
    rep: int,
    root: int,
    n: int,
)
    requires
        uf_wf(m0, n),
        0 <= a < n,
        0 <= b < n,
        uf_merged(m0, m1, a, b, rep),
        root != m0[a],
        root != m0[b],
        root != rep,
    ensures
        class_seq(m1, root, n) == class_seq(m0, root, n),
{
    lemma_class_same_upto(m0, m1, a, b, rep, root, n, n);
}

/// Inductive core of `lemma_class_same`.
proof fn lemma_class_same_upto(
    m0: Map<int, int>,
    m1: Map<int, int>,
    a: int,
    b: int,
    rep: int,
    root: int,
    n: int,
    i: int,
)
    requires
        uf_wf(m0, n),
        0 <= a < n,
        0 <= b < n,
        uf_merged(m0, m1, a, b, rep),
        root != m0[a],
        root != m0[b],
        root != rep,
        0 <= i <= n,
    ensures
        class_seq_upto(m1, root, i) == class_seq_upto(m0, root, i),
    decreases i,
{
    reveal(Seq::filter);
    if i == 0 {
        assert(Seq::new(0, |k: int| k).len() == 0);
    } else {
        lemma_class_same_upto(m0, m1, a, b, rep, root, n, i - 1);
        let base = Seq::new(i as nat, |k: int| k);
        assert(base.drop_last() =~= Seq::new((i - 1) as nat, |k: int| k));
        assert(base.last() == i - 1);
        let x = i - 1;
        assert(m0.contains_key(x)) by {
            assert(m0.dom().contains(x));
        }
        assert(m1[x] == if m0[x] == m0[a] || m0[x] == m0[b] { rep } else { m0[x] });
        assert((m1[x] == root) == (m0[x] == root));
    }
}

impl MergeTree {
    /// A structural copy of the tree.
    pub fn clone_tree(&self) -> (r: MergeTree)
        ensures
            r == *self,
        decreases *self,
    {
        match self {
            MergeTree::Leaf(v) => MergeTree::Leaf(*v),
            MergeTree::Node(_, _) => {
                let l = self.left_child().clone_tree();
                let r = self.right_child().clone_tree();
                MergeTree::Node(Box::new(l), Box::new(r))
            },
        }
    }
}

/// The deterministic merge priority: lower score key first, ties broken by
/// the lower first endpoint, then the lower second endpoint.
pub open spec fn edge_before(e1: CollapseEdge, e2: CollapseEdge) -> bool {
    ||| e1.score_key < e2.score_key
    ||| (e1.score_key == e2.score_key && e1.u < e2.u)
    ||| (e1.score_key == e2.score_key && e1.u == e2.u && e1.v <= e2.v)
}

/// An edge is active while its endpoints are still in different groups.
pub open spec fn edge_active(e: CollapseEdge, m: Map<int, int>) -> bool {
    m[e.u as int] != m[e.v as int]
}

/// Picks the next edge to merge: the lowest active edge under the
/// deterministic priority; `None` when no edge is active.
pub fn select_edge(edges: &Vec<CollapseEdge>, forest: &CollapseForest) -> (r: Option<usize>)
    requires
        forest.wf(),
        forall|k: int| 0 <= k < edges@.len() ==> (#[trigger] edges@[k]).u < forest.ntxps
            && edges@[k].v < forest.ntxps,
    ensures
        match r {
            Some(i) => {
                &&& i < edges@.len()
                &&& edge_active(edges@[i as int], forest.model())
                &&& forall|k: int| 0 <= k < edges@.len() && edge_active(
                    #[trigger] edges@[k],
                    forest.model(),
                ) ==> edge_before(edges@[i as int], edges@[k])
            },
            None => forall|k: int| 0 <= k < edges@.len() ==> !edge_active(
                #[trigger] edges@[k],
                forest.model(),
            ),
        },
{
    let mut best: Option<usize> = None;
    let mut k: usize = 0;
    while k < edges.len()
        invariant
            k <= edges@.len(),
            forest.wf(),
            forall|q: int| 0 <= q < edges@.len() ==> (#[trigger] edges@[q]).u < forest.ntxps
                && edges@[q].v < forest.ntxps,
            match best {
                Some(i) => {
                    &&& i < k
                    &&& edge_active(edges@[i as int], forest.model())
                    &&& forall|q: int| 0 <= q < k && edge_active(
                        #[trigger] edges@[q],
                        forest.model(),
                    ) ==> edge_before(edges@[i as int], edges@[q])
                },
                None => forall|q: int| 0 <= q < k ==> !edge_active(
                    #[trigger] edges@[q],
                    forest.model(),
                ),
            },
        decreases edges@.len() - k,
    {
        let ru = forest.find(edges[k].u);
        let rv = forest.find(edges[k].v);
        if ru != rv {
            let take = match best {
                None => true,
                Some(i) => {
                    let cur = &edges[i];
                    let cand = &edges[k];
                    cand.score_key < cur.score_key || (cand.score_key == cur.score_key && (cand.u
                        < cur.u || (cand.u == cur.u && cand.v < cur.v)))
                },
            };
            if take {
                best = Some(k);
            }
        }
        k += 1;
    }
    best
}

} // verus!
