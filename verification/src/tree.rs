//! Merge trees: the hierarchical merge history of a group.  A tree is either
//! a leaf wrapping one transcript index or an internal node owning exactly
//! two children.  A node's canonical id is the numerically sorted list of the
//! leaf indices beneath it, and a tree serializes to a bracketed string.

use vstd::prelude::*;
use vstd::relations::{sorted_by, total_ordering};
use vstd::seq_lib::{lemma_multiset_commutative, lemma_sorted_unique};
use crate::digits::{spec_dec, u64_to_string};
use crate::ids::{seq_ints, sorted, spec_id_str};

verus! {

/// The merge history of a group: a leaf is a transcript, an internal node
/// records one merge of its two children.  Internal nodes are created at
/// merge time and never changed afterwards.
pub enum MergeTree {
    Leaf(u64),
    Node(Box<MergeTree>, Box<MergeTree>),
}

/// The leaf indices of a tree, left to right.
pub open spec fn leaves(t: MergeTree) -> Seq<int>
    decreases t,
{
    match t {
        MergeTree::Leaf(v) => seq![v as int],
        MergeTree::Node(l, r) => leaves(*l) + leaves(*r),
    }
}

/// The canonical member list of a tree: its leaves, numerically sorted.
pub open spec fn canonical_seq(t: MergeTree) -> Seq<int> {
    leaves(t).sort()
}

/// `t` is the internal node whose children are `l` and `r`, in that order.
pub open spec fn is_internal(t: MergeTree, l: MergeTree, r: MergeTree) -> bool {
    match t {
        MergeTree::Node(a, b) => *a == l && *b == r,
        MergeTree::Leaf(_) => false,
    }
}

/// `t` is the leaf for index `v`.
pub open spec fn is_leaf(t: MergeTree, v: u64) -> bool {
    match t {
        MergeTree::Leaf(x) => x == v,
        MergeTree::Node(_, _) => false,
    }
}

/// The ascending total order on integers.
pub open spec fn int_leq() -> spec_fn(int, int) -> bool {
    |x: int, y: int| x <= y
}

/// `sorted` and vstd's `sorted_by` under the ascending order agree.
pub proof fn lemma_sorted_iff_sorted_by(s: Seq<int>)
    ensures
        sorted(s) <==> sorted_by(s, int_leq()),
{
    if sorted_by(s, int_leq()) {
        assert forall|i: int, j: int| 0 <= i < j < s.len() implies s[i] <= s[j] by {
            assert(int_leq()(s[i], s[j]));
        }
    }
}

/// The ascending order on integers is total.
pub proof fn lemma_int_leq_total()
    ensures
        total_ordering(int_leq()),
{
}

/// A sorted sequence is its own sort.
pub proof fn lemma_sort_of_sorted(s: Seq<int>)
    requires
        sorted(s),
    ensures
        s.sort() == s,
{
    s.lemma_sort_ensures();
    lemma_int_leq_total();
    lemma_sorted_iff_sorted_by(s);
    lemma_sorted_unique(s.sort(), s, int_leq());
}

/// Sequences with the same contents have the same sort.
pub proof fn lemma_sort_eq_of_multiset(x: Seq<int>, y: Seq<int>)
    requires
        x.to_multiset() == y.to_multiset(),
    ensures
        x.sort() == y.sort(),
{
    x.lemma_sort_ensures();
    y.lemma_sort_ensures();
    lemma_int_leq_total();
    lemma_sorted_unique(x.sort(), y.sort(), int_leq());
}

/// Shape and contents of the canonical member list: as long as the leaf
/// list, same contents, ascending.
pub proof fn lemma_canonical_props(t: MergeTree)
    ensures
        canonical_seq(t).to_multiset() == leaves(t).to_multiset(),
        canonical_seq(t).len() == leaves(t).len(),
        leaves(t).len() >= 1,
        sorted(canonical_seq(t)),
{
    broadcast use vstd::seq_lib::group_to_multiset_ensures;

    leaves(t).lemma_sort_ensures();
    lemma_sorted_iff_sorted_by(canonical_seq(t));
    lemma_leaves_nonempty(t);
    assert(canonical_seq(t).len() == canonical_seq(t).to_multiset().len());
    assert(leaves(t).len() == leaves(t).to_multiset().len());
}

/// Every tree has at least one leaf.
proof fn lemma_leaves_nonempty(t: MergeTree)
    ensures
        leaves(t).len() >= 1,
    decreases t,
{
    match t {
        MergeTree::Leaf(_) => {},
        MergeTree::Node(l, r) => {
            lemma_leaves_nonempty(*l);
            lemma_leaves_nonempty(*r);
        },
    }
}

/// The canonical id does not depend on the order of an internal node's
/// children: the node over `(a, b)` and the node over `(b, a)` have the same
/// canonical member list.
pub proof fn lemma_canonical_swap(t1: MergeTree, t2: MergeTree, a: MergeTree, b: MergeTree)
    requires
        is_internal(t1, a, b),
        is_internal(t2, b, a),
    ensures
        canonical_seq(t1) == canonical_seq(t2),
{
    assert(leaves(t1) == leaves(a) + leaves(b));
    assert(leaves(t2) == leaves(b) + leaves(a));
    lemma_multiset_commutative(leaves(a), leaves(b));
    lemma_multiset_commutative(leaves(b), leaves(a));
    assert(leaves(t1).to_multiset() =~= leaves(t2).to_multiset());
    lemma_sort_eq_of_multiset(leaves(t1), leaves(t2));
}

/// Two ascending sequences with the same contents are the same sequence.
pub proof fn lemma_sorted_same_multiset(s1: Seq<int>, s2: Seq<int>)
    requires
        sorted(s1),
        sorted(s2),
        s1.to_multiset() == s2.to_multiset(),
    ensures
        s1 == s2,
{
    lemma_int_leq_total();
    lemma_sorted_iff_sorted_by(s1);
    lemma_sorted_iff_sorted_by(s2);
    lemma_sorted_unique(s1, s2, int_leq());
}

/// Merging two ascending sequences, smallest head first.
pub open spec fn merge_seq(x: Seq<int>, y: Seq<int>) -> Seq<int>
    decreases x.len() + y.len(),
{
    if x.len() == 0 {
        y
    } else if y.len() == 0 {
        x
    } else if x[0] <= y[0] {
        seq![x[0]] + merge_seq(x.drop_first(), y)
    } else {
        seq![y[0]] + merge_seq(x, y.drop_first())
    }
}

/// The merge of two ascending sequences is ascending and holds exactly their
/// contents.
pub proof fn lemma_merge_props(x: Seq<int>, y: Seq<int>)
    requires
        sorted(x),
        sorted(y),
    ensures
        merge_seq(x, y).len() == x.len() + y.len(),
        merge_seq(x, y).to_multiset() == (x + y).to_multiset(),
        sorted(merge_seq(x, y)),
        forall|e: int| #[trigger] merge_seq(x, y).contains(e) ==> x.contains(e) || y.contains(e),
    decreases x.len() + y.len(),
{
    let m = merge_seq(x, y);
    if x.len() == 0 {
        assert(x + y =~= y);
    } else if y.len() == 0 {
        assert(x + y =~= x);
    } else if x[0] <= y[0] {
        let xt = x.drop_first();
        assert(sorted(xt));
        lemma_merge_props(xt, y);
        let mt = merge_seq(xt, y);
        assert(m == seq![x[0]] + mt);
        lemma_multiset_commutative(seq![x[0]], mt);
        lemma_multiset_commutative(seq![x[0]], xt + y);
        assert(x + y =~= seq![x[0]] + (xt + y));
        assert(m.to_multiset() =~= (x + y).to_multiset());
        assert forall|i: int, j: int| 0 <= i < j < m.len() implies m[i] <= m[j] by {
            if i == 0 {
                let e = m[j];
                assert(e == mt[j - 1]);
                assert(mt.contains(e));
                if xt.contains(e) {
                    let k = choose|k: int| 0 <= k < xt.len() && xt[k] == e;
                    assert(x[k + 1] == e);
                    assert(x[0] <= e);
                } else {
                    let k = choose|k: int| 0 <= k < y.len() && y[k] == e;
                    assert(y[0] <= e);
                    assert(x[0] <= e);
                }
            } else {
                assert(m[i] == mt[i - 1]);
                assert(m[j] == mt[j - 1]);
            }
        }
        assert forall|e: int| #[trigger] m.contains(e) implies x.contains(e) || y.contains(e) by {
            let k = choose|k: int| 0 <= k < m.len() && m[k] == e;
            if k == 0 {
                assert(x[0] == e);
            } else {
                assert(mt[k - 1] == e);
                assert(mt.contains(e));
                if xt.contains(e) {
                    let q = choose|q: int| 0 <= q < xt.len() && xt[q] == e;
                    assert(x[q + 1] == e);
                }
            }
        }
    } else {
        let yt = y.drop_first();
        assert(sorted(yt));
        lemma_merge_props(x, yt);
        let mt = merge_seq(x, yt);
        assert(m == seq![y[0]] + mt);
        lemma_multiset_commutative(seq![y[0]], mt);
        lemma_multiset_commutative(x, y);
        lemma_multiset_commutative(x, yt);
        assert(m.to_multiset() =~= (x + y).to_multiset()) by {
            lemma_multiset_commutative(seq![y[0]], yt);
            assert(y =~= seq![y[0]] + yt);
        }
        assert forall|i: int, j: int| 0 <= i < j < m.len() implies m[i] <= m[j] by {
            if i == 0 {
                let e = m[j];
                assert(e == mt[j - 1]);
                assert(mt.contains(e));
                if x.contains(e) {
                    let k = choose|k: int| 0 <= k < x.len() && x[k] == e;
                    assert(x[0] <= e);
                    assert(y[0] <= e);
                } else {
                    let k = choose|k: int| 0 <= k < yt.len() && yt[k] == e;
                    assert(y[k + 1] == e);
                    assert(y[0] <= e);
                }
            } else {
                assert(m[i] == mt[i - 1]);
                assert(m[j] == mt[j - 1]);
            }
        }
        assert forall|e: int| #[trigger] m.contains(e) implies x.contains(e) || y.contains(e) by {
            let k = choose|k: int| 0 <= k < m.len() && m[k] == e;
            if k == 0 {
                assert(y[0] == e);
            } else {
                assert(mt[k - 1] == e);
                assert(mt.contains(e));
                if yt.contains(e) {
                    let q = choose|q: int| 0 <= q < yt.len() && yt[q] == e;
                    assert(y[q + 1] == e);
                }
            }
        }
    }
}

/// The merge of two ascending sequences is the sort of their concatenation.
pub proof fn lemma_merge_is_sort(x: Seq<int>, y: Seq<int>)
    requires
        sorted(x),
        sorted(y),
    ensures
        merge_seq(x, y) == (x + y).sort(),
{
    lemma_merge_props(x, y);
    (x + y).lemma_sort_ensures();
    lemma_int_leq_total();
    lemma_sorted_iff_sorted_by(merge_seq(x, y));
    lemma_sorted_unique(merge_seq(x, y), (x + y).sort(), int_leq());
}

/// Merges two ascending member vectors into one.
pub fn merge_sorted(a: &Vec<u64>, b: &Vec<u64>) -> (r: Vec<u64>)
    requires
        sorted(seq_ints(a@)),
        sorted(seq_ints(b@)),
    ensures
        seq_ints(r@) == merge_seq(seq_ints(a@), seq_ints(b@)),
{
    let ghost ga = seq_ints(a@);
    let ghost gb = seq_ints(b@);
    let mut out: Vec<u64> = Vec::new();
    let mut i: usize = 0;
    let mut j: usize = 0;
    proof {
        assert(ga.subrange(0, ga.len() as int) =~= ga);
        assert(gb.subrange(0, gb.len() as int) =~= gb);
        assert(seq_ints(out@) + merge_seq(ga, gb) =~= merge_seq(ga, gb));
    }
    while i < a.len() || j < b.len()
        invariant
            i <= a@.len(),
            j <= b@.len(),
            ga == seq_ints(a@),
            gb == seq_ints(b@),
            sorted(ga),
            sorted(gb),
            merge_seq(ga, gb) == seq_ints(out@) + merge_seq(
                ga.subrange(i as int, ga.len() as int),
                gb.subrange(j as int, gb.len() as int),
            ),
        decreases a@.len() - i + b@.len() - j,
    {
        let ghost ra = ga.subrange(i as int, ga.len() as int);
        let ghost rb = gb.subrange(j as int, gb.len() as int);
        let take_a = if j >= b.len() {
            true
        } else if i >= a.len() {
            false
        } else {
            a[i] <= b[j]
        };
        if take_a {
            let v = a[i];
            out.push(v);
            proof {
                assert(ra.len() > 0);
                assert(ra[0] == v as int);
                if rb.len() == 0 {
                    assert(merge_seq(ra, rb) == ra);
                    assert(ra =~= seq![v as int] + ga.subrange(i + 1 as int, ga.len() as int));
                } else {
                    assert(ra[0] <= rb[0]);
                    assert(merge_seq(ra, rb) == seq![ra[0]] + merge_seq(ra.drop_first(), rb));
                    assert(ra.drop_first() =~= ga.subrange(i + 1 as int, ga.len() as int));
                }
                assert(seq_ints(out@) =~= seq_ints(out@.drop_last()) + seq![v as int]);
                assert(seq_ints(out@) + merge_seq(
                    ga.subrange(i + 1 as int, ga.len() as int),
                    rb,
                ) =~= (seq_ints(out@.drop_last()) + seq![v as int]) + merge_seq(
                    ga.subrange(i + 1 as int, ga.len() as int),
                    rb,
                ));
                assert((seq_ints(out@.drop_last()) + seq![v as int]) + merge_seq(
                    ga.subrange(i + 1 as int, ga.len() as int),
                    rb,
                ) =~= seq_ints(out@.drop_last()) + (seq![v as int] + merge_seq(
                    ga.subrange(i + 1 as int, ga.len() as int),
                    rb,
                )));
            }
            i += 1;
        } else {
            let v = b[j];
            out.push(v);
            proof {
                assert(rb.len() > 0);
                assert(rb[0] == v as int);
                if ra.len() == 0 {
                    assert(merge_seq(ra, rb) == rb);
                    assert(rb =~= seq![v as int] + gb.subrange(j + 1 as int, gb.len() as int));
                } else {
                    assert(!(ra[0] <= rb[0]));
                    assert(merge_seq(ra, rb) == seq![rb[0]] + merge_seq(ra, rb.drop_first()));
                    assert(rb.drop_first() =~= gb.subrange(j + 1 as int, gb.len() as int));
                }
                assert(seq_ints(out@) =~= seq_ints(out@.drop_last()) + seq![v as int]);
                assert(seq_ints(out@) + merge_seq(
                    ra,
                    gb.subrange(j + 1 as int, gb.len() as int),
                ) =~= seq_ints(out@.drop_last()) + (seq![v as int] + merge_seq(
                    ra,
                    gb.subrange(j + 1 as int, gb.len() as int),
                )));
            }
            j += 1;
        }
    }
    proof {
        assert(ga.subrange(i as int, ga.len() as int).len() == 0);
        assert(gb.subrange(j as int, gb.len() as int).len() == 0);
        assert(merge_seq(
            ga.subrange(i as int, ga.len() as int),
            gb.subrange(j as int, gb.len() as int),
        ).len() == 0);
        assert(merge_seq(ga, gb) =~= seq_ints(out@));
    }
    out
}

impl MergeTree {
    /// The canonical member list of the tree, ascending.
    pub fn canonical_members(&self) -> (r: Vec<u64>)
        ensures
            seq_ints(r@) == canonical_seq(*self),
        decreases *self,
    {
        match self {
            MergeTree::Leaf(v) => {
                let mut out: Vec<u64> = Vec::new();
                out.push(*v);
                proof {
                    assert(seq_ints(out@) =~= seq![*v as int]);
                    assert(leaves(*self) == seq![*v as int]);
                    lemma_sort_of_sorted(leaves(*self));
                }
                out
            },
            MergeTree::Node(l, r) => {
                let a = self.left_child().canonical_members();
                let b = self.right_child().canonical_members();
                proof {
                    lemma_canonical_props(**l);
                    lemma_canonical_props(**r);
                }
                let m = merge_sorted(&a, &b);
                proof {
                    lemma_merge_is_sort(canonical_seq(**l), canonical_seq(**r));
                    lemma_multiset_commutative(canonical_seq(**l), canonical_seq(**r));
                    lemma_multiset_commutative(leaves(**l), leaves(**r));
                    assert((canonical_seq(**l) + canonical_seq(**r)).to_multiset()
                        =~= leaves(*self).to_multiset());
                    lemma_sort_eq_of_multiset(
                        canonical_seq(**l) + canonical_seq(**r),
                        leaves(*self),
                    );
                }
                m
            },
        }
    }

    /// The left child of an internal node.
    pub fn left_child(&self) -> (r: &MergeTree)
        requires
            self is Node,
        ensures
            *r == *self->Node_0,
    {
        match self {
            MergeTree::Node(l, _) => l,
            MergeTree::Leaf(_) => unreached(),
        }
    }

    /// The right child of an internal node.
    pub fn right_child(&self) -> (r: &MergeTree)
        requires
            self is Node,
        ensures
            *r == *self->Node_1,
    {
        match self {
            MergeTree::Node(_, r) => r,
            MergeTree::Leaf(_) => unreached(),
        }
    }

    /// The canonical id of the tree: its sorted members, underscore-joined.
    pub fn canonical_id(&self) -> (r: String)
        ensures
            r@ == spec_id_str(canonical_seq(*self)),
    {
        let members = self.canonical_members();
        proof {
            lemma_canonical_props(*self);
        }
        let g = crate::ids::GroupId { members };
        g.to_string()
    }

    /// Structural equality of two trees.
    pub fn same_tree(&self, other: &MergeTree) -> (r: bool)
        ensures
            r == (*self == *other),
        decreases *self,
    {
        match (self, other) {
            (MergeTree::Leaf(a), MergeTree::Leaf(b)) => *a == *b,
            (MergeTree::Node(a0, a1), MergeTree::Node(b0, b1)) => {
                let e0 = self.left_child().same_tree(other.left_child());
                if e0 {
                    self.right_child().same_tree(other.right_child())
                } else {
                    false
                }
            },
            _ => false,
        }
    }
}

/// The bracketed rendering of a tree, without the closing semicolon: a leaf
/// is its index, an internal node is `(left,right)`.
pub open spec fn spec_newick(t: MergeTree) -> Seq<char>
    decreases t,
{
    match t {
        MergeTree::Leaf(v) => spec_dec(v as int),
        MergeTree::Node(l, r) => seq!['('] + spec_newick(*l) + seq![','] + spec_newick(*r)
            + seq![')'],
    }
}

/// A whole serialized tree line: the bracketed rendering closed by `;`.
pub open spec fn spec_newick_line(t: MergeTree) -> Seq<char> {
    spec_newick(t) + seq![';']
}

/// Renders a tree without the closing semicolon.
pub fn get_binary_rooted_newick_string(t: &MergeTree) -> (r: String)
    ensures
        r@ == spec_newick(*t),
    decreases *t,
{
    match t {
        MergeTree::Leaf(v) => u64_to_string(*v),
        MergeTree::Node(_, _) => {
            proof {
                reveal_strlit("(");
                reveal_strlit(",");
                reveal_strlit(")");
            }
            let mut s = String::from_str("(");
            let ls = get_binary_rooted_newick_string(t.left_child());
            s.append(ls.as_str());
            s.append(",");
            let rs = get_binary_rooted_newick_string(t.right_child());
            s.append(rs.as_str());
            s.append(")");
            proof {
                assert(s@ =~= spec_newick(*t));
            }
            s
        },
    }
}

/// Renders a full serialized tree line, semicolon included.
pub fn newick_line(t: &MergeTree) -> (r: String)
    ensures
        r@ == spec_newick_line(*t),
{
    proof {
        reveal_strlit(";");
    }
    let mut s = get_binary_rooted_newick_string(t);
    s.append(";");
    proof {
        assert(s@ =~= spec_newick_line(*t));
    }
    s
}

} // verus!
