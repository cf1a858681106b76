//! The library's global laws: the disjoint-set partition covers every
//! transcript exactly once, and the merged super-group partition does not
//! depend on the order in which samples' groups are processed.

use vstd::prelude::*;
use crate::aggregate::{merged_members, merged_upto};
use crate::disjoint::{class_seq, pairs_of_group, pairs_of_groups, same_after, uf_wf};
use crate::ids::strictly_sorted;

verus! {

/// Every transcript lies in the group of its own root, at exactly one
/// position, and in no other group: the groups of a well-formed disjoint
/// set partition the whole target universe.
pub proof fn lemma_partition_covers_each_once(m: Map<int, int>, n: int, t: int)
    requires
        uf_wf(m, n),
        0 <= t < n,
    ensures
        class_seq(m, m[t], n).contains(t),
        strictly_sorted(class_seq(m, m[t], n)),
        forall|k1: int, k2: int| 0 <= k1 < k2 < class_seq(m, m[t], n).len()
            ==> class_seq(m, m[t], n)[k1] != class_seq(m, m[t], n)[k2],
        forall|root: int| class_seq(m, root, n).contains(t) ==> root == m[t],
{
    assert(m.contains_key(t));
    crate::disjoint::lemma_class_upto_props(m, m[t], n);
    assert forall|root: int| class_seq(m, root, n).contains(t) implies root == m[t] by {
        crate::disjoint::lemma_class_upto_props(m, root, n);
    }
}

/// Being in one set is reflexive.
pub proof fn lemma_same_refl(ps: Seq<(int, int)>, x: int)
    ensures
        same_after(ps, x, x),
    decreases ps.len(),
{
    if ps.len() > 0 {
        lemma_same_refl(ps.drop_last(), x);
    }
}

/// Being in one set is symmetric.
pub proof fn lemma_same_sym(ps: Seq<(int, int)>, x: int, y: int)
    ensures
        same_after(ps, x, y) == same_after(ps, y, x),
    decreases ps.len(),
{
    if ps.len() > 0 {
        let q = ps.drop_last();
        let p = ps.last();
        lemma_same_sym(q, x, y);
        lemma_same_sym(q, x, p.0);
        lemma_same_sym(q, x, p.1);
        lemma_same_sym(q, y, p.0);
        lemma_same_sym(q, y, p.1);
    }
}

/// Being in one set is transitive.
pub proof fn lemma_same_trans(ps: Seq<(int, int)>, x: int, y: int, z: int)
    requires
        same_after(ps, x, y),
        same_after(ps, y, z),
    ensures
        same_after(ps, x, z),
    decreases ps.len(),
{
    if ps.len() == 0 {
    } else {
        let q = ps.drop_last();
        let p = ps.last();
        if same_after(q, x, y) && same_after(q, y, z) {
            lemma_same_trans(q, x, y, z);
        } else if same_after(q, x, y) {
            if same_after(q, y, p.0) {
                lemma_same_trans(q, x, y, p.0);
            } else {
                lemma_same_trans(q, x, y, p.1);
            }
        } else if same_after(q, y, z) {
            if same_after(q, y, p.0) {
                lemma_same_sym(q, y, z);
                lemma_same_sym(q, z, p.0);
                lemma_same_trans(q, z, y, p.0);
            } else {
                lemma_same_sym(q, y, z);
                lemma_same_sym(q, z, p.1);
                lemma_same_trans(q, z, y, p.1);
            }
        } else {
        }
    }
}

/// More unions never separate what was together.
pub proof fn lemma_same_mono(ps: Seq<(int, int)>, p: (int, int), x: int, y: int)
    requires
        same_after(ps, x, y),
    ensures
        same_after(ps.push(p), x, y),
{
    assert(ps.push(p).drop_last() =~= ps);
}

/// Every executed union pair ends up in one set.
pub proof fn lemma_same_contains_pair(ps: Seq<(int, int)>, k: int)
    requires
        0 <= k < ps.len(),
    ensures
        same_after(ps, ps[k].0, ps[k].1),
    decreases ps.len(),
{
    let q = ps.drop_last();
    let p = ps.last();
    if k == ps.len() - 1 {
        lemma_same_refl(q, p.0);
        lemma_same_refl(q, p.1);
    } else {
        lemma_same_contains_pair(q, k);
        lemma_same_mono(q, p, ps[k].0, ps[k].1);
        assert(ps =~= q.push(p));
    }
}

/// `same_after` is the least equivalence containing the union pairs: any
/// equivalence relation that relates every executed pair relates whatever
/// `same_after` relates.
pub proof fn lemma_same_least(
    ps: Seq<(int, int)>,
    r: spec_fn(int, int) -> bool,
    x: int,
    y: int,
)
    requires
        forall|a: int| #[trigger] r(a, a),
        forall|a: int, b: int| #[trigger] r(a, b) ==> r(b, a),
        forall|a: int, b: int, c: int| #[trigger] r(a, b) && #[trigger] r(b, c) ==> r(a, c),
        forall|k: int| 0 <= k < ps.len() ==> r((#[trigger] ps[k]).0, ps[k].1),
        same_after(ps, x, y),
    ensures
        r(x, y),
    decreases ps.len(),
{
    if ps.len() == 0 {
        assert(x == y);
    } else {
        let q = ps.drop_last();
        let p = ps.last();
        assert(forall|k: int| 0 <= k < q.len() ==> (#[trigger] q[k]) == ps[k]);
        if same_after(q, x, y) {
            lemma_same_least(q, r, x, y);
        } else {
            assert(r(p.0, p.1)) by {
                assert(ps[ps.len() - 1] == p);
            }
            let rx: int = if same_after(q, x, p.0) { p.0 } else { p.1 };
            lemma_same_least(q, r, x, rx);
            let ry: int = if same_after(q, y, p.0) { p.0 } else { p.1 };
            lemma_same_least(q, r, y, ry);
            assert(r(rx, ry));
            assert(r(ry, y));
        }
    }
}

/// A pair appears among a group list's union pairs exactly when it appears
/// among some group's own pairs.
pub proof fn lemma_groups_pair_origin(gs: Seq<Seq<int>>, p: (int, int))
    ensures
        pairs_of_groups(gs).contains(p) <==> exists|g: int| 0 <= g < gs.len()
            && pairs_of_group(#[trigger] gs[g]).contains(p),
    decreases gs.len(),
{
    if gs.len() == 0 {
    } else {
        let head = gs.drop_last();
        lemma_groups_pair_origin(head, p);
        let whole = pairs_of_groups(gs);
        let left = pairs_of_groups(head);
        let right = pairs_of_group(gs.last());
        assert(whole == left + right);
        if whole.contains(p) {
            let k = choose|k: int| 0 <= k < whole.len() && whole[k] == p;
            if k < left.len() {
                assert(left[k] == p);
                assert(left.contains(p));
                let g = choose|g: int| 0 <= g < head.len() && pairs_of_group(
                    #[trigger] head[g],
                ).contains(p);
                assert(gs[g] == head[g]);
            } else {
                assert(right[k - left.len()] == p);
                assert(right.contains(p));
                assert(gs[gs.len() - 1] == gs.last());
            }
        }
        if exists|g: int| 0 <= g < gs.len() && pairs_of_group(#[trigger] gs[g]).contains(p) {
            let g = choose|g: int| 0 <= g < gs.len() && pairs_of_group(
                #[trigger] gs[g],
            ).contains(p);
            if g < head.len() {
                assert(head[g] == gs[g]);
                assert(left.contains(p));
                let k = choose|k: int| 0 <= k < left.len() && left[k] == p;
                assert(whole[k] == p);
            } else {
                assert(gs[g] == gs.last());
                let k = choose|k: int| 0 <= k < right.len() && right[k] == p;
                assert(whole[left.len() + k] == p);
            }
        }
    }
}

/// One direction of order independence: whatever the first list links, a
/// list holding the same groups links too.
proof fn lemma_same_subset(gs1: Seq<Seq<int>>, gs2: Seq<Seq<int>>, x: int, y: int)
    requires
        gs1.to_multiset() == gs2.to_multiset(),
        same_after(pairs_of_groups(gs1), x, y),
    ensures
        same_after(pairs_of_groups(gs2), x, y),
{
    broadcast use vstd::seq_lib::group_to_multiset_ensures;

    let ps1 = pairs_of_groups(gs1);
    let ps2 = pairs_of_groups(gs2);
    let r = |a: int, b: int| same_after(ps2, a, b);
    assert forall|a: int| #[trigger] r(a, a) by {
        lemma_same_refl(ps2, a);
    }
    assert forall|a: int, b: int| #[trigger] r(a, b) implies r(b, a) by {
        lemma_same_sym(ps2, a, b);
    }
    assert forall|a: int, b: int, c: int| #[trigger] r(a, b) && #[trigger] r(b, c)
        implies r(a, c) by {
        lemma_same_trans(ps2, a, b, c);
    }
    assert forall|k: int| 0 <= k < ps1.len() implies r((#[trigger] ps1[k]).0, ps1[k].1) by {
        let p = ps1[k];
        assert(ps1.contains(p));
        lemma_groups_pair_origin(gs1, p);
        let g = choose|g: int| 0 <= g < gs1.len() && pairs_of_group(#[trigger] gs1[g]).contains(
            p,
        );
        assert(gs1.to_multiset().contains(gs1[g]));
        assert(gs2.to_multiset().contains(gs1[g]));
        assert(gs2.contains(gs1[g]));
        let g2 = choose|g2: int| 0 <= g2 < gs2.len() && gs2[g2] == gs1[g];
        lemma_groups_pair_origin(gs2, p);
        assert(pairs_of_group(gs2[g2]).contains(p));
        assert(ps2.contains(p));
        let k2 = choose|k2: int| 0 <= k2 < ps2.len() && ps2[k2] == p;
        lemma_same_contains_pair(ps2, k2);
    }
    lemma_same_least(ps1, r, x, y);
}

/// Cross-sample aggregation is order independent: two runs that see the
/// same groups, in any order, link exactly the same transcripts.
pub proof fn lemma_merge_order_independent(gs1: Seq<Seq<int>>, gs2: Seq<Seq<int>>, x: int, y: int)
    requires
        gs1.to_multiset() == gs2.to_multiset(),
    ensures
        same_after(pairs_of_groups(gs1), x, y) == same_after(pairs_of_groups(gs2), x, y),
{
    if same_after(pairs_of_groups(gs1), x, y) {
        lemma_same_subset(gs1, gs2, x, y);
    }
    if same_after(pairs_of_groups(gs2), x, y) {
        lemma_same_subset(gs2, gs1, x, y);
    }
}

/// Hence every merged super-group is the same whatever the processing
/// order: the member list derived for an anchor does not change when the
/// groups are reordered.
pub proof fn lemma_merged_members_order_independent(
    gs1: Seq<Seq<int>>,
    gs2: Seq<Seq<int>>,
    n: int,
    anchor: int,
)
    requires
        gs1.to_multiset() == gs2.to_multiset(),
        n >= 0,
    ensures
        merged_members(pairs_of_groups(gs1), n, anchor) == merged_members(
            pairs_of_groups(gs2),
            n,
            anchor,
        ),
{
    lemma_merged_upto_order_independent(gs1, gs2, anchor, n);
}

/// Inductive core of `lemma_merged_members_order_independent`.
proof fn lemma_merged_upto_order_independent(
    gs1: Seq<Seq<int>>,
    gs2: Seq<Seq<int>>,
    anchor: int,
    i: int,
)
    requires
        gs1.to_multiset() == gs2.to_multiset(),
        i >= 0,
    ensures
        merged_upto(pairs_of_groups(gs1), anchor, i) == merged_upto(
            pairs_of_groups(gs2),
            anchor,
            i,
        ),
    decreases i,
{
    reveal(Seq::filter);
    if i == 0 {
        assert(Seq::new(0, |k: int| k).len() == 0);
    } else {
        lemma_merged_upto_order_independent(gs1, gs2, anchor, i - 1);
        let base = Seq::new(i as nat, |k: int| k);
        assert(base.drop_last() =~= Seq::new((i - 1) as nat, |k: int| k));
        assert(base.last() == i - 1);
        lemma_merge_order_independent(gs1, gs2, i - 1, anchor);
        let p1 = pairs_of_groups(gs1);
        let p2 = pairs_of_groups(gs2);
        assert(merged_upto(p1, anchor, i) == if same_after(p1, i - 1, anchor) {
            merged_upto(p1, anchor, i - 1).push(i - 1)
        } else {
            merged_upto(p1, anchor, i - 1)
        });
        assert(merged_upto(p2, anchor, i) == if same_after(p2, i - 1, anchor) {
            merged_upto(p2, anchor, i - 1).push(i - 1)
        } else {
            merged_upto(p2, anchor, i - 1)
        });
    }
}

} // verus!
