//! Disjoint sets over transcript indices, used once per sample and once
//! across samples.  The structure itself comes from petgraph; its contents
//! are modelled as a map from each element to the representative of its set,
//! and the partition reached by a run of unions is pinned down by the
//! `same_after` relation over the executed union pairs.

use vstd::prelude::*;
use petgraph::unionfind::UnionFind;
use crate::ids::GroupId;

verus! {

#[verifier::external_type_specification]
#[verifier::external_body]
#[verifier::reject_recursive_types(K)]
pub struct ExUnionFind<K>(UnionFind<K>);

/// The contents of a disjoint-set structure: each element of `0..n` mapped
/// to the representative of its set.
pub uninterp spec fn uf_model(uf: UnionFind<usize>) -> Map<int, int>;

/// Well-formed contents over `0..n`: every element is mapped, and each
/// representative is an element that represents itself.
pub open spec fn uf_wf(m: Map<int, int>, n: int) -> bool {
    &&& m.dom() =~= Set::new(|i: int| 0 <= i < n)
    &&& forall|i: int| m.contains_key(i)
        ==> m.contains_key(#[trigger] m[i]) && m[m[i]] == m[i]
}

/// Relies on petgraph's `UnionFind::new`: `n` disjoint singleton sets, each
/// element the representative of its own set.
#[verifier::external_body]
pub fn uf_new(n: usize) -> (r: UnionFind<usize>)
    ensures
        uf_model(r) == Map::new(|i: int| 0 <= i < n as int, |i: int| i),
{
    UnionFind::new(n)
}

/// Relies on petgraph's `UnionFind::find`: returns the representative of the
/// set holding `x`; a representative represents itself.
#[verifier::external_body]
pub fn uf_find(uf: &UnionFind<usize>, x: usize) -> (r: usize)
    requires
        uf_model(*uf).contains_key(x as int),
    ensures
        r as int == uf_model(*uf)[x as int],
        uf_model(*uf).contains_key(r as int),
        uf_model(*uf)[r as int] == r as int,
{
    uf.find(x)
}

/// One union step: the sets holding `a` and `b` are joined under one of
/// their two old representatives, every other set is untouched.
pub open spec fn uf_merged(m0: Map<int, int>, m1: Map<int, int>, a: int, b: int, rep: int) -> bool {
    &&& (rep == m0[a] || rep == m0[b])
    &&& m1.dom() =~= m0.dom()
    &&& forall|i: int| m0.contains_key(i)
        ==> m1[i] == (if m0[i] == m0[a] || m0[i] == m0[b] { rep } else { m0[i] })
}

/// Relies on petgraph's `UnionFind::union`: joins the sets holding `x` and
/// `y`, keeping one of their two representatives (which one depends on the
/// internal ranks); returns whether the sets were distinct.
#[verifier::external_body]
pub fn uf_union(uf: &mut UnionFind<usize>, x: usize, y: usize) -> (r: bool)
    requires
        uf_model(*old(uf)).contains_key(x as int),
        uf_model(*old(uf)).contains_key(y as int),
    ensures
        r == (uf_model(*old(uf))[x as int] != uf_model(*old(uf))[y as int]),
        exists|rep: int|
            #[trigger] uf_merged(uf_model(*old(uf)), uf_model(*final(uf)), x as int, y as int, rep),
{
    uf.union(x, y)
}

/// Two elements fall in the same set after the union pairs `ps` have been
/// applied, in order, to singleton sets.
pub open spec fn same_after(ps: Seq<(int, int)>, x: int, y: int) -> bool
    decreases ps.len(),
{
    if ps.len() == 0 {
        x == y
    } else {
        let p = ps.last();
        let q = ps.drop_last();
        same_after(q, x, y) || ((same_after(q, x, p.0) || same_after(q, x, p.1)) && (same_after(
            q,
            y,
            p.0,
        ) || same_after(q, y, p.1)))
    }
}

/// The union pairs a group contributes: its first member against each of the
/// others.
pub open spec fn pairs_of_group(g: Seq<int>) -> Seq<(int, int)> {
    if g.len() <= 1 {
        Seq::empty()
    } else {
        Seq::new((g.len() - 1) as nat, |k: int| (g[0], g[k + 1]))
    }
}

/// The union pairs of a whole group list, in order.
pub open spec fn pairs_of_groups(gs: Seq<Seq<int>>) -> Seq<(int, int)>
    decreases gs.len(),
{
    if gs.len() == 0 {
        Seq::empty()
    } else {
        pairs_of_groups(gs.drop_last()) + pairs_of_group(gs.last())
    }
}

/// The member lists of a group vector.
pub open spec fn views_of(gs: Seq<GroupId>) -> Seq<Seq<int>> {
    gs.map_values(|g: GroupId| g@)
}

/// Applying one union pair to well-formed contents moves the contents to the
/// partition of `same_after` extended by that pair.
proof fn lemma_union_step(
    m0: Map<int, int>,
    m1: Map<int, int>,
    ps: Seq<(int, int)>,
    a: int,
    b: int,
    rep: int,
    n: int,
)
    requires
        uf_wf(m0, n),
        forall|x: int, y: int| 0 <= x < n && 0 <= y < n
            ==> ((#[trigger] m0[x] == #[trigger] m0[y]) <==> same_after(ps, x, y)),
        0 <= a < n,
        0 <= b < n,
        uf_merged(m0, m1, a, b, rep),
    ensures
        uf_wf(m1, n),
        forall|x: int, y: int| 0 <= x < n && 0 <= y < n
            ==> ((#[trigger] m1[x] == #[trigger] m1[y]) <==> same_after(ps.push((a, b)), x, y)),
{
    let ra = m0[a];
    let rb = m0[b];
    assert(m0.contains_key(a));
    assert(m0.contains_key(b));
    assert(m0[ra] == ra && m0[rb] == rb);
    assert(rep == ra || rep == rb);
    assert(uf_wf(m1, n)) by {
        assert forall|i: int| m1.contains_key(i)
            implies m1.contains_key(#[trigger] m1[i]) && m1[m1[i]] == m1[i] by {
            assert(m0.contains_key(i));
            if m0[i] == ra || m0[i] == rb {
                assert(m1[i] == rep);
                assert(m0[rep] == rep);
                assert(m1[rep] == rep);
            } else {
                assert(m1[i] == m0[i]);
                assert(m1[m0[i]] == m0[i]);
            }
        }
    }
    let ps1 = ps.push((a, b));
    assert(ps1.drop_last() =~= ps);
    assert(ps1.last() == (a, b));
    assert forall|x: int, y: int| 0 <= x < n && 0 <= y < n
        implies ((#[trigger] m1[x] == #[trigger] m1[y]) <==> same_after(ps1, x, y)) by {
        assert(m0.contains_key(x));
        assert(m0.contains_key(y));
        let cx = m0[x] == ra || m0[x] == rb;
        let cy = m0[y] == ra || m0[y] == rb;
        assert(cx <==> (same_after(ps, x, a) || same_after(ps, x, b)));
        assert(cy <==> (same_after(ps, y, a) || same_after(ps, y, b)));
        assert(same_after(ps1, x, y) == (same_after(ps, x, y) || ((same_after(ps, x, a)
            || same_after(ps, x, b)) && (same_after(ps, y, a) || same_after(ps, y, b)))));
        if cx && cy {
            assert(m1[x] == rep && m1[y] == rep);
        } else if cx && !cy {
            assert(m1[x] == rep && m1[y] == m0[y]);
            assert(rep != m0[y]);
            assert(!same_after(ps, x, y));
        } else if !cx && cy {
            assert(m1[x] == m0[x] && m1[y] == rep);
            assert(rep != m0[x]);
            assert(!same_after(ps, x, y));
        } else {
            assert(m1[x] == m0[x] && m1[y] == m0[y]);
        }
    }
}

/// Builds the disjoint sets seeded from a list of groups: the first member
/// of each group is united with each of its other members.  The resulting
/// partition is exactly the one `same_after` describes over the groups'
/// union pairs.
pub fn create_union_find(groups: &Vec<GroupId>, ntxps: usize) -> (r: UnionFind<usize>)
    requires
        forall|k: int| 0 <= k < groups@.len() ==> (#[trigger] groups@[k]).wf(),
        forall|k: int, e: int| 0 <= k < groups@.len() && 0 <= e < groups@[k]@.len()
            ==> 0 <= #[trigger] groups@[k]@[e] < ntxps as int,
    ensures
        uf_wf(uf_model(r), ntxps as int),
        forall|x: int, y: int| 0 <= x < ntxps as int && 0 <= y < ntxps as int
            ==> ((#[trigger] uf_model(r)[x] == #[trigger] uf_model(r)[y]) <==> same_after(
                pairs_of_groups(views_of(groups@)),
                x,
                y,
            )),
{
    let mut uf = uf_new(ntxps);
    proof {
        let m = uf_model(uf);
        assert(m.dom() =~= Set::new(|i: int| 0 <= i < ntxps as int));
        assert(views_of(groups@).subrange(0, 0).len() == 0);
    }
    let mut gi: usize = 0;
    while gi < groups.len()
        invariant
            gi <= groups@.len(),
            forall|k: int| 0 <= k < groups@.len() ==> (#[trigger] groups@[k]).wf(),
            forall|k: int, e: int| 0 <= k < groups@.len() && 0 <= e < groups@[k]@.len()
                ==> 0 <= #[trigger] groups@[k]@[e] < ntxps as int,
            uf_wf(uf_model(uf), ntxps as int),
            forall|x: int, y: int| 0 <= x < ntxps as int && 0 <= y < ntxps as int
                ==> ((#[trigger] uf_model(uf)[x] == #[trigger] uf_model(uf)[y]) <==> same_after(
                    pairs_of_groups(views_of(groups@).subrange(0, gi as int)),
                    x,
                    y,
                )),
        decreases groups@.len() - gi,
    {
        let ghost gv: Seq<int> = groups@[gi as int]@;
        let source = groups[gi].members[0] as usize;
        let ghost prev_pairs = pairs_of_groups(views_of(groups@).subrange(0, gi as int));
        proof {
            assert(0 <= gv[0] < ntxps as int);
            assert(gv[0] == source as int);
            assert(pairs_of_group(gv).subrange(0, 0).len() == 0);
            assert(prev_pairs + pairs_of_group(gv).subrange(0, 0) =~= prev_pairs);
        }
        let mut t: usize = 1;
        while t < groups[gi].members.len()
            invariant
                1 <= t <= gv.len(),
                gi < groups@.len(),
                gv == groups@[gi as int]@,
                forall|k: int| 0 <= k < groups@.len() ==> (#[trigger] groups@[k]).wf(),
                forall|k: int, e: int| 0 <= k < groups@.len() && 0 <= e < groups@[k]@.len()
                    ==> 0 <= #[trigger] groups@[k]@[e] < ntxps as int,
                source as int == gv[0],
                prev_pairs == pairs_of_groups(views_of(groups@).subrange(0, gi as int)),
                uf_wf(uf_model(uf), ntxps as int),
                forall|x: int, y: int| 0 <= x < ntxps as int && 0 <= y < ntxps as int
                    ==> ((#[trigger] uf_model(uf)[x] == #[trigger] uf_model(uf)[y])
                        <==> same_after(
                        prev_pairs + pairs_of_group(gv).subrange(0, t as int - 1),
                        x,
                        y,
                    )),
            decreases gv.len() - t,
        {
            let other = groups[gi].members[t] as usize;
            proof {
                assert(gv[0] < ntxps as int);
                assert(0 <= gv[t as int] < ntxps as int);
                assert(gv[t as int] == other as int);
                assert(uf_model(uf).contains_key(source as int));
                assert(uf_model(uf).contains_key(other as int));
            }
            let ghost m0 = uf_model(uf);
            let _changed = uf_union(&mut uf, source, other);
            proof {
                let m1 = uf_model(uf);
                let rep = choose|rep: int|
                    #[trigger] uf_merged(m0, m1, source as int, other as int, rep);
                let ps = prev_pairs + pairs_of_group(gv).subrange(0, t as int - 1);
                lemma_union_step(m0, m1, ps, source as int, other as int, rep, ntxps as int);
                assert(pairs_of_group(gv).subrange(0, t as int)
                    =~= pairs_of_group(gv).subrange(0, t as int - 1).push(
                    (source as int, other as int),
                )) by {
                    assert(gv.len() >= 2);
                    assert(pairs_of_group(gv)[t as int - 1] == (gv[0], gv[t as int]));
                }
                assert(prev_pairs + pairs_of_group(gv).subrange(0, t as int)
                    =~= ps.push((source as int, other as int)));
            }
            t += 1;
        }
        proof {
            assert(pairs_of_group(gv).subrange(0, t as int - 1) =~= pairs_of_group(gv));
            let next = views_of(groups@).subrange(0, gi as int + 1);
            assert(next.drop_last() =~= views_of(groups@).subrange(0, gi as int));
            assert(next.last() == gv);
            assert(pairs_of_groups(next) == pairs_of_groups(next.drop_last()) + pairs_of_group(
                next.last(),
            ));
        }
        gi += 1;
    }
    proof {
        assert(views_of(groups@).subrange(0, groups@.len() as int) =~= views_of(groups@));
    }
    uf
}

/// The elements of `0..i` whose representative is `root`, ascending.
pub open spec fn class_seq_upto(m: Map<int, int>, root: int, i: int) -> Seq<int> {
    Seq::new(if i >= 0 { i as nat } else { 0 }, |k: int| k).filter(|k: int| m[k] == root)
}

/// The members of the set represented by `root`, among `0..n`, ascending.
pub open spec fn class_seq(m: Map<int, int>, root: int, n: int) -> Seq<int> {
    class_seq_upto(m, root, n)
}

/// Shape and contents of a class member list: strictly ascending, holding
/// exactly the elements below `i` that `root` represents.
pub proof fn lemma_class_upto_props(m: Map<int, int>, root: int, i: int)
    requires
        i >= 0,
    ensures
        crate::ids::strictly_sorted(class_seq_upto(m, root, i)),
        forall|x: int| #[trigger] class_seq_upto(m, root, i).contains(x)
            <==> (0 <= x < i && m[x] == root),
        forall|k: int| 0 <= k < class_seq_upto(m, root, i).len()
            ==> 0 <= #[trigger] class_seq_upto(m, root, i)[k] < i,
    decreases i,
{
    reveal(Seq::filter);
    let cur = class_seq_upto(m, root, i);
    if i == 0 {
        assert(Seq::new(0, |k: int| k).len() == 0);
        assert(cur.len() == 0);
        assert forall|x: int| #[trigger] cur.contains(x) implies false by {}
    } else {
        lemma_class_upto_props(m, root, i - 1);
        let prev = class_seq_upto(m, root, i - 1);
        let base = Seq::new(i as nat, |k: int| k);
        assert(base.drop_last() =~= Seq::new((i - 1) as nat, |k: int| k));
        assert(base.last() == i - 1);
        assert(cur == if m[i - 1] == root { prev.push(i - 1) } else { prev });
        if m[i - 1] == root {
            assert forall|x: int| #[trigger] cur.contains(x)
                implies (0 <= x < i && m[x] == root) by {
                let k = choose|k: int| 0 <= k < cur.len() && cur[k] == x;
                if k < prev.len() {
                    assert(prev.contains(x));
                } else {
                    assert(x == i - 1);
                }
            }
            assert forall|x: int| 0 <= x < i && m[x] == root
                implies #[trigger] cur.contains(x) by {
                if x < i - 1 {
                    assert(prev.contains(x));
                    let k = choose|k: int| 0 <= k < prev.len() && prev[k] == x;
                    assert(cur[k] == x);
                } else {
                    assert(cur[cur.len() - 1] == x);
                }
            }
            assert forall|k1: int, k2: int| 0 <= k1 < k2 < cur.len()
                implies cur[k1] < cur[k2] by {
                if k2 < prev.len() {
                } else {
                    assert(cur[k2] == i - 1);
                    assert(cur[k1] == prev[k1]);
                    assert(0 <= prev[k1] < i - 1);
                }
            }
        } else {
            assert(cur == prev);
            assert forall|x: int| #[trigger] cur.contains(x)
                implies (0 <= x < i && m[x] == root) by {
                assert(prev.contains(x));
            }
            assert forall|x: int| 0 <= x < i && m[x] == root
                implies #[trigger] cur.contains(x) by {
                assert(x != i - 1);
                assert(prev.contains(x));
            }
        }
    }
}

/// Collects the members of the set represented by `root`.
pub fn class_of(uf: &UnionFind<usize>, root: usize, ntxps: usize) -> (r: Vec<u64>)
    requires
        uf_wf(uf_model(*uf), ntxps as int),
    ensures
        crate::ids::seq_ints(r@) == class_seq(uf_model(*uf), root as int, ntxps as int),
{
    let ghost m = uf_model(*uf);
    let mut out: Vec<u64> = Vec::new();
    let mut i: usize = 0;
    proof {
        reveal(Seq::filter);
        assert(Seq::new(0nat, |k: int| k).len() == 0);
        assert(class_seq_upto(m, root as int, 0) =~= Seq::<int>::empty());
        assert(crate::ids::seq_ints(out@) =~= Seq::<int>::empty());
    }
    while i < ntxps
        invariant
            i <= ntxps,
            m == uf_model(*uf),
            uf_wf(m, ntxps as int),
            crate::ids::seq_ints(out@) == class_seq_upto(m, root as int, i as int),
        decreases ntxps - i,
    {
        proof {
            assert(m.contains_key(i as int));
        }
        let rt = uf_find(uf, i);
        proof {
            reveal(Seq::filter);
            let base = Seq::new(i as nat + 1, |k: int| k);
            assert(base.drop_last() =~= Seq::new(i as nat, |k: int| k));
            assert(base.last() == i as int);
            assert(class_seq_upto(m, root as int, i as int + 1) == if m[i as int] == root as int {
                class_seq_upto(m, root as int, i as int).push(i as int)
            } else {
                class_seq_upto(m, root as int, i as int)
            });
        }
        if rt == root {
            out.push(i as u64);
            proof {
                assert(crate::ids::seq_ints(out@) =~= class_seq_upto(
                    m,
                    root as int,
                    i as int,
                ).push(i as int));
            }
        }
        i += 1;
    }
    out
}

} // verus!
