//! Cross-sample aggregation: groups from different samples fall into one
//! merged super-group when their members are linked through any sample's
//! grouping, and the merged group's bipartition counts are the key-wise sums
//! of its constituents' counts.

use vstd::prelude::*;
use crate::bipart::{count_of, distinct_seqs, sat_int, table_keys, BipartTable};
use crate::disjoint::{
    class_seq, class_seq_upto, create_union_find, lemma_class_upto_props, pairs_of_groups,
    same_after, uf_find, uf_model, uf_wf, views_of,
};
use crate::ids::{seq_ints, strictly_sorted, GroupId};

verus! {

/// The key views of a keyed table list.
pub open spec fn keys_of(v: Seq<(GroupId, BipartTable)>) -> Seq<Seq<int>> {
    v.map_values(|p: (GroupId, BipartTable)| p.0@)
}

/// The whole view of a keyed table list: each entry as its key members and
/// its table contents.
pub open spec fn entries_view(v: Seq<(GroupId, BipartTable)>) -> Seq<(Seq<int>, Seq<(Seq<int>, u32)>)> {
    v.map_values(|p: (GroupId, BipartTable)| (p.0@, p.1@))
}

/// The members of `0..i` linked to `anchor` through the union pairs `ps`.
pub open spec fn merged_upto(ps: Seq<(int, int)>, anchor: int, i: int) -> Seq<int> {
    Seq::new(if i >= 0 { i as nat } else { 0 }, |k: int| k).filter(
        |x: int| same_after(ps, x, anchor),
    )
}

/// The merged super-group of `anchor`: all of `0..n` linked to it through
/// the union pairs `ps`, ascending.
pub open spec fn merged_members(ps: Seq<(int, int)>, n: int, anchor: int) -> Seq<int> {
    merged_upto(ps, anchor, n)
}

/// Whether some entry of `s` carries the key `key`.
pub open spec fn has_mkey(s: Seq<(Seq<int>, Seq<(Seq<int>, u32)>)>, key: Seq<int>) -> bool {
    exists|j: int| 0 <= j < s.len() && (#[trigger] s[j]).0 == key
}

/// The total count the entries mapping to the merged key `mkey` hold for the
/// bipartition key `bk`, entry by entry.
pub open spec fn sum_counts(
    es: Seq<(Seq<int>, Seq<(Seq<int>, u32)>)>,
    ps: Seq<(int, int)>,
    n: int,
    mkey: Seq<int>,
    bk: Seq<int>,
) -> int
    decreases es.len(),
{
    if es.len() == 0 {
        0
    } else {
        sum_counts(es.drop_last(), ps, n, mkey, bk) + if merged_members(ps, n, es.last().0[0])
            == mkey {
            count_of(es.last().1, bk)
        } else {
            0
        }
    }
}

/// A sum of counts is never negative.
pub proof fn lemma_sum_counts_nonneg(
    es: Seq<(Seq<int>, Seq<(Seq<int>, u32)>)>,
    ps: Seq<(int, int)>,
    n: int,
    mkey: Seq<int>,
    bk: Seq<int>,
)
    ensures
        sum_counts(es, ps, n, mkey, bk) >= 0,
    decreases es.len(),
{
    if es.len() > 0 {
        lemma_sum_counts_nonneg(es.drop_last(), ps, n, mkey, bk);
        crate::bipart::lemma_count_of_nonneg(es.last().1, bk);
    }
}

/// The sum over all entries dominates each constituent.
pub proof fn lemma_sum_counts_lower(
    es: Seq<(Seq<int>, Seq<(Seq<int>, u32)>)>,
    ps: Seq<(int, int)>,
    n: int,
    mkey: Seq<int>,
    bk: Seq<int>,
    i: int,
)
    requires
        0 <= i < es.len(),
        merged_members(ps, n, es[i].0[0]) == mkey,
    ensures
        sum_counts(es, ps, n, mkey, bk) >= count_of(es[i].1, bk),
    decreases es.len(),
{
    if i == es.len() - 1 {
        lemma_sum_counts_nonneg(es.drop_last(), ps, n, mkey, bk);
    } else {
        assert(es.drop_last()[i] == es[i]);
        lemma_sum_counts_lower(es.drop_last(), ps, n, mkey, bk, i);
        crate::bipart::lemma_count_of_nonneg(es.last().1, bk);
    }
}

/// Bipartition sums are monotonic: the saturated cross-sample sum for a
/// shared key is at least any single constituent group's count for it.
pub proof fn lemma_merged_count_dominates(
    es: Seq<(Seq<int>, Seq<(Seq<int>, u32)>)>,
    ps: Seq<(int, int)>,
    n: int,
    mkey: Seq<int>,
    bk: Seq<int>,
    i: int,
)
    requires
        0 <= i < es.len(),
        merged_members(ps, n, es[i].0[0]) == mkey,
    ensures
        sat_int(sum_counts(es, ps, n, mkey, bk)) >= count_of(es[i].1, bk),
{
    lemma_sum_counts_lower(es, ps, n, mkey, bk, i);
    crate::bipart::lemma_count_of_nonneg(es[i].1, bk);
}

/// The class of `anchor`'s representative is exactly the merged super-group
/// that `same_after` describes for `anchor`.
pub proof fn lemma_merged_is_class(
    m: Map<int, int>,
    ps: Seq<(int, int)>,
    n: int,
    anchor: int,
    i: int,
)
    requires
        uf_wf(m, n),
        forall|x: int, y: int| 0 <= x < n && 0 <= y < n
            ==> ((#[trigger] m[x] == #[trigger] m[y]) <==> same_after(ps, x, y)),
        0 <= anchor < n,
        0 <= i <= n,
    ensures
        class_seq_upto(m, m[anchor], i) == merged_upto(ps, anchor, i),
    decreases i,
{
    reveal(Seq::filter);
    if i == 0 {
        assert(Seq::new(0, |k: int| k).len() == 0);
    } else {
        lemma_merged_is_class(m, ps, n, anchor, i - 1);
        let base = Seq::new(i as nat, |k: int| k);
        assert(base.drop_last() =~= Seq::new((i - 1) as nat, |k: int| k));
        assert(base.last() == i - 1);
        assert(m.contains_key(anchor));
        assert((m[i - 1] == m[anchor]) <==> same_after(ps, i - 1, anchor));
        assert(class_seq_upto(m, m[anchor], i) == if m[i - 1] == m[anchor] {
            class_seq_upto(m, m[anchor], i - 1).push(i - 1)
        } else {
            class_seq_upto(m, m[anchor], i - 1)
        });
        assert(merged_upto(ps, anchor, i) == if same_after(ps, i - 1, anchor) {
            merged_upto(ps, anchor, i - 1).push(i - 1)
        } else {
            merged_upto(ps, anchor, i - 1)
        });
    }
}

/// Merges the groups of all samples into super-groups: two groups fall
/// together when any chain of shared members links them, and each merged
/// group's bipartition table is the key-wise saturated sum of its
/// constituents' tables.  Output entries appear in order of each merged
/// group's first constituent.
pub fn merge_groups(all_groups_bpart: &Vec<(GroupId, BipartTable)>, ntxps: usize) -> (r: Vec<
    (GroupId, BipartTable),
>)
    requires
        forall|i: int| 0 <= i < all_groups_bpart@.len()
            ==> (#[trigger] all_groups_bpart@[i]).0.wf(),
        forall|i: int| 0 <= i < all_groups_bpart@.len()
            ==> (#[trigger] all_groups_bpart@[i]).1.wf(),
        forall|i: int, e: int| 0 <= i < all_groups_bpart@.len() && 0 <= e
            < all_groups_bpart@[i].0@.len()
            ==> 0 <= #[trigger] all_groups_bpart@[i].0@[e] < ntxps as int,
    ensures
        ({
            let v = all_groups_bpart@;
            let ps = pairs_of_groups(keys_of(v));
            let n = ntxps as int;
            let out = entries_view(r@);
            let inp = entries_view(v);
            &&& forall|j1: int, j2: int| 0 <= j1 < j2 < out.len()
                ==> (#[trigger] out[j1]).0 != (#[trigger] out[j2]).0
            &&& forall|j: int| 0 <= j < out.len() ==> (#[trigger] out[j]).0.len() >= 1
                && strictly_sorted(out[j].0)
            &&& forall|i: int| 0 <= i < v.len() ==> has_mkey(
                out,
                merged_members(ps, n, (#[trigger] v[i]).0@[0]),
            )
            &&& forall|j: int| 0 <= j < out.len() ==> exists|i: int| 0 <= i < v.len()
                && (#[trigger] out[j]).0 == merged_members(ps, n, v[i].0@[0])
            &&& forall|j: int, bk: Seq<int>| 0 <= j < out.len() ==> #[trigger] count_of(
                out[j].1,
                bk,
            ) == sat_int(sum_counts(inp, ps, n, out[j].0, bk))
            &&& forall|j: int| 0 <= j < out.len() ==> distinct_seqs(
                table_keys((#[trigger] out[j]).1),
            )
        }),
{
    let ghost v = all_groups_bpart@;
    let ghost n = ntxps as int;
    let mut keys: Vec<GroupId> = Vec::new();
    let mut i: usize = 0;
    while i < all_groups_bpart.len()
        invariant
            i <= v.len(),
            v == all_groups_bpart@,
            forall|q: int| 0 <= q < v.len() ==> (#[trigger] v[q]).0.wf(),
            forall|q: int, e: int| 0 <= q < v.len() && 0 <= e < v[q].0@.len()
                ==> 0 <= #[trigger] v[q].0@[e] < ntxps as int,
            keys@.len() == i,
            forall|q: int| 0 <= q < i ==> (#[trigger] keys@[q])@ == v[q].0@,
            forall|q: int| 0 <= q < i ==> (#[trigger] keys@[q]).wf(),
        decreases v.len() - i,
    {
        let k = all_groups_bpart[i].0.duplicate();
        keys.push(k);
        i += 1;
    }
    proof {
        assert(views_of(keys@) =~= keys_of(v)) by {
            assert(forall|q: int| 0 <= q < v.len()
                ==> views_of(keys@)[q] == (#[trigger] keys_of(v)[q]));
        }
        assert forall|q: int, e: int| 0 <= q < keys@.len() && 0 <= e < keys@[q]@.len()
            implies 0 <= #[trigger] keys@[q]@[e] < ntxps as int by {
            assert(keys@[q]@ == v[q].0@);
        }
    }
    let uf = create_union_find(&keys, ntxps);
    let ghost m = uf_model(uf);
    let ghost ps = pairs_of_groups(keys_of(v));
    proof {
        assert(pairs_of_groups(views_of(keys@)) == ps);
    }
    let mut mkeys: Vec<GroupId> = Vec::new();
    let mut i2: usize = 0;
    while i2 < all_groups_bpart.len()
        invariant
            i2 <= v.len(),
            v == all_groups_bpart@,
            forall|q: int| 0 <= q < v.len() ==> (#[trigger] v[q]).0.wf(),
            forall|q: int, e: int| 0 <= q < v.len() && 0 <= e < v[q].0@.len()
                ==> 0 <= #[trigger] v[q].0@[e] < ntxps as int,
            m == uf_model(uf),
            uf_wf(m, n),
            n == ntxps as int,
            forall|x: int, y: int| 0 <= x < n && 0 <= y < n
                ==> ((#[trigger] m[x] == #[trigger] m[y]) <==> same_after(ps, x, y)),
            mkeys@.len() == i2,
            forall|q: int| 0 <= q < i2 ==> (#[trigger] mkeys@[q]).wf(),
            forall|q: int| 0 <= q < i2
                ==> (#[trigger] mkeys@[q])@ == merged_members(ps, n, v[q].0@[0]),
        decreases v.len() - i2,
    {
        let anchor64 = all_groups_bpart[i2].0.anchor();
        proof {
            assert(0 <= v[i2 as int].0@[0] < ntxps as int);
        }
        let anchor = anchor64 as usize;
        proof {
            assert(m.contains_key(anchor as int));
        }
        let root = uf_find(&uf, anchor);
        let members = crate::disjoint::class_of(&uf, root, ntxps);
        proof {
            lemma_class_upto_props(m, root as int, n);
            lemma_merged_is_class(m, ps, n, anchor as int, n);
            assert(root as int == m[anchor as int]);
            assert(seq_ints(members@) == merged_members(ps, n, anchor as int));
            assert(class_seq(m, root as int, n).contains(anchor as int));
            assert(seq_ints(members@).len() >= 1);
            assert(members@.len() == seq_ints(members@).len());
        }
        let mg = GroupId::from_sorted(members);
        mkeys.push(mg);
        i2 += 1;
    }
    let ghost inp = entries_view(v);
    let mut out: Vec<(GroupId, BipartTable)> = Vec::new();
    let mut i3: usize = 0;
    while i3 < all_groups_bpart.len()
        invariant
            i3 <= v.len(),
            v == all_groups_bpart@,
            inp == entries_view(v),
            n == ntxps as int,
            forall|q: int| 0 <= q < v.len() ==> (#[trigger] v[q]).1.wf(),
            mkeys@.len() == v.len(),
            forall|q: int| 0 <= q < v.len() ==> (#[trigger] mkeys@[q]).wf(),
            forall|q: int| 0 <= q < v.len()
                ==> (#[trigger] mkeys@[q])@ == merged_members(ps, n, v[q].0@[0]),
            forall|j1: int, j2: int| 0 <= j1 < j2 < entries_view(out@).len()
                ==> (#[trigger] entries_view(out@)[j1]).0 != (#[trigger] entries_view(out@)[j2]).0,
            forall|j: int| 0 <= j < entries_view(out@).len() ==> exists|q: int| 0 <= q < i3
                && (#[trigger] entries_view(out@)[j]).0 == mkeys@[q]@,
            forall|q: int| 0 <= q < i3 ==> has_mkey(entries_view(out@), (#[trigger] mkeys@[q])@),
            forall|j: int, bk: Seq<int>| 0 <= j < entries_view(out@).len() ==> #[trigger] count_of(
                entries_view(out@)[j].1,
                bk,
            ) == sat_int(sum_counts(inp, ps, n, entries_view(out@)[j].0, bk)),
            forall|j: int| 0 <= j < entries_view(out@).len() ==> distinct_seqs(
                table_keys((#[trigger] entries_view(out@)[j]).1),
            ),
        decreases v.len() - i3,
    {
        let mut seen = false;
        let mut q: usize = 0;
        while q < i3
            invariant
                q <= i3,
                i3 < v.len(),
                mkeys@.len() == v.len(),
                seen == exists|q2: int| 0 <= q2 < q
                    && (#[trigger] mkeys@[q2])@ == mkeys@[i3 as int]@,
            decreases i3 - q,
        {
            let hit = mkeys[q].same(&mkeys[i3]);
            proof {
                if hit {
                    assert(mkeys@[q as int]@ == mkeys@[i3 as int]@);
                }
            }
            seen = seen || hit;
            q += 1;
        }
        if !seen {
            let mut t = BipartTable::new();
            proof {
                assert(inp.subrange(0, 0).len() == 0);
            }
            let mut j: usize = 0;
            while j < all_groups_bpart.len()
                invariant
                    j <= v.len(),
                    i3 < v.len(),
                    v == all_groups_bpart@,
                    inp == entries_view(v),
                    n == ntxps as int,
                    forall|q2: int| 0 <= q2 < v.len() ==> (#[trigger] v[q2]).1.wf(),
                    mkeys@.len() == v.len(),
                    forall|q2: int| 0 <= q2 < v.len()
                        ==> (#[trigger] mkeys@[q2])@ == merged_members(ps, n, v[q2].0@[0]),
                    t.wf(),
                    forall|bk: Seq<int>| count_of(t@, bk) == sat_int(
                        sum_counts(inp.subrange(0, j as int), ps, n, mkeys@[i3 as int]@, bk),
                    ),
                decreases v.len() - j,
            {
                let hit = mkeys[j].same(&mkeys[i3]);
                let ghost t0 = t@;
                if hit {
                    t.merge_from(&all_groups_bpart[j].1);
                }
                proof {
                    let pre = inp.subrange(0, j as int);
                    let nxt = inp.subrange(0, j as int + 1);
                    assert(nxt.drop_last() =~= pre);
                    assert(nxt.last() == inp[j as int]);
                    assert(inp[j as int].0 == v[j as int].0@);
                    assert(inp[j as int].1 == v[j as int].1@);
                    let mk = mkeys@[i3 as int]@;
                    assert((merged_members(ps, n, inp[j as int].0[0]) == mk) == (mkeys@[
                        j as int
                    ]@ == mk));
                    assert forall|bk: Seq<int>| count_of(t@, bk) == sat_int(
                        sum_counts(nxt, ps, n, mk, bk),
                    ) by {
                        lemma_sum_counts_nonneg(pre, ps, n, mk, bk);
                        crate::bipart::lemma_count_of_nonneg(inp[j as int].1, bk);
                        if mkeys@[j as int]@ == mk {
                            assert(count_of(t@, bk) == sat_int(
                                count_of(t0, bk) + count_of(v[j as int].1@, bk),
                            ));
                            assert(count_of(t0, bk) == sat_int(sum_counts(pre, ps, n, mk, bk)));
                            assert(sum_counts(nxt, ps, n, mk, bk) == sum_counts(pre, ps, n, mk, bk)
                                + count_of(inp[j as int].1, bk));
                        } else {
                            assert(sum_counts(nxt, ps, n, mk, bk) == sum_counts(
                                pre,
                                ps,
                                n,
                                mk,
                                bk,
                            ));
                        }
                    }
                }
                j += 1;
            }
            proof {
                assert(inp.subrange(0, v.len() as int) =~= inp);
            }
            let nk = mkeys[i3].duplicate();
            let ghost out0 = entries_view(out@);
            out.push((nk, t));
            proof {
                assert(entries_view(out@) =~= out0.push((mkeys@[i3 as int]@, t@)));
                let outv = entries_view(out@);
                assert(outv[outv.len() - 1].0 == mkeys@[i3 as int]@);
                assert forall|j1: int, j2: int| 0 <= j1 < j2 < outv.len()
                    implies (#[trigger] outv[j1]).0 != (#[trigger] outv[j2]).0 by {
                    if j2 == outv.len() - 1 {
                        let q2 = choose|q2: int| 0 <= q2 < i3 && out0[j1].0 == mkeys@[q2]@;
                        assert(!(mkeys@[q2]@ == mkeys@[i3 as int]@));
                    }
                }
                assert forall|q2: int| 0 <= q2 < i3 + 1
                    implies has_mkey(outv, (#[trigger] mkeys@[q2])@) by {
                    if q2 < i3 {
                        assert(has_mkey(out0, mkeys@[q2]@));
                        let jj = choose|jj: int| 0 <= jj < out0.len() && (#[trigger] out0[jj]).0
                            == mkeys@[q2]@;
                        assert(outv[jj].0 == mkeys@[q2]@);
                    } else {
                        assert(outv[outv.len() - 1].0 == mkeys@[q2]@);
                    }
                }
            }
        } else {
            proof {
                let outv = entries_view(out@);
                assert forall|q2: int| 0 <= q2 < i3 + 1
                    implies has_mkey(outv, (#[trigger] mkeys@[q2])@) by {
                    if q2 == i3 {
                        let q3 = choose|q3: int| 0 <= q3 < i3 && (#[trigger] mkeys@[q3])@
                            == mkeys@[i3 as int]@;
                        assert(has_mkey(outv, mkeys@[q3]@));
                        let jj = choose|jj: int| 0 <= jj < outv.len() && (#[trigger] outv[jj]).0
                            == mkeys@[q3]@;
                        assert(outv[jj].0 == mkeys@[q2]@);
                    }
                }
            }
        }
        i3 += 1;
    }
    proof {
        let out = entries_view(out@);
        assert forall|j: int| 0 <= j < out.len() implies (#[trigger] out[j]).0.len() >= 1
            && strictly_sorted(out[j].0) by {
            let q = choose|q: int| 0 <= q < v.len() && out[j].0 == mkeys@[q]@;
            assert(mkeys@[q].wf());
        }
        assert forall|i4: int| 0 <= i4 < v.len() implies has_mkey(
            out,
            merged_members(ps, n, (#[trigger] v[i4]).0@[0]),
        ) by {
            assert(has_mkey(out, mkeys@[i4]@));
        }
    }
    out
}

} // verus!
