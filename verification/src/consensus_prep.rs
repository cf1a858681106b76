//! Per merged super-group, the representative tree line of each sample:
//! the sample's own group trees joined under one root, members the sample
//! split out added back as singleton leaves, and an empty placeholder for a
//! sample that saw none of the group.  Also the merged-group information
//! line listing, per sample, which original groups were present.

use vstd::prelude::*;
use crate::digits::{spec_dec, u64_to_string};
use crate::disjoint::{pairs_of_groups, same_after, views_of};
use crate::ids::{seq_ints, spec_id_str, GroupId};
use crate::tree::{get_binary_rooted_newick_string, spec_newick, MergeTree};
use crate::aggregate::{merged_members, merged_upto};

verus! {

/// Whether any of the member lists holds `x`.
pub open spec fn in_any(others: Seq<Seq<int>>, x: int) -> bool {
    exists|j: int| 0 <= j < others.len() && (#[trigger] others[j]).contains(x)
}

/// The members of `m` that no list in `others` holds, in order.
pub open spec fn diff_seq(m: Seq<int>, others: Seq<Seq<int>>) -> Seq<int> {
    m.filter(|x: int| !in_any(others, x))
}

/// The members of the merged group that none of the given groups holds:
/// the transcripts a sample split out, to be added back as singleton
/// leaves.
pub fn comp_diff(m_group: &GroupId, oth_groups: &Vec<GroupId>) -> (r: Vec<u64>)
    ensures
        seq_ints(r@) == diff_seq(m_group@, views_of(oth_groups@)),
{
    let ghost mv = m_group@;
    let ghost ov = views_of(oth_groups@);
    let mut out: Vec<u64> = Vec::new();
    let mut i: usize = 0;
    proof {
        reveal(Seq::filter);
        assert(mv.subrange(0, 0).len() == 0);
        assert(seq_ints(out@) =~= diff_seq(mv.subrange(0, 0), ov));
    }
    while i < m_group.members.len()
        invariant
            i <= m_group.members@.len(),
            mv == m_group@,
            ov == views_of(oth_groups@),
            seq_ints(out@) == diff_seq(mv.subrange(0, i as int), ov),
        decreases m_group.members@.len() - i,
    {
        let x = m_group.members[i];
        let mut found = false;
        let mut q: usize = 0;
        while q < oth_groups.len()
            invariant
                q <= oth_groups@.len(),
                ov == views_of(oth_groups@),
                x == m_group.members@[i as int],
                found == exists|j: int| 0 <= j < q && (#[trigger] ov[j]).contains(x as int),
            decreases oth_groups@.len() - q,
        {
            let hit = oth_groups[q].contains(x);
            proof {
                if hit {
                    assert(ov[q as int].contains(x as int));
                }
            }
            found = found || hit;
            q += 1;
        }
        proof {
            assert(found == in_any(ov, x as int));
        }
        if !found {
            out.push(x);
        }
        proof {
            reveal(Seq::filter);
            let pre = mv.subrange(0, i as int);
            let nxt = mv.subrange(0, i as int + 1);
            assert(nxt.drop_last() =~= pre);
            assert(nxt.last() == x as int);
            assert(diff_seq(nxt, ov) == if !in_any(ov, x as int) {
                diff_seq(pre, ov).push(x as int)
            } else {
                diff_seq(pre, ov)
            });
            if !found {
                assert(seq_ints(out@) =~= seq_ints(out@.drop_last()).push(x as int));
            }
        }
        i += 1;
    }
    proof {
        assert(mv.subrange(0, mv.len() as int) =~= mv);
    }
    out
}

/// One sample's persisted group trees, keyed by canonical group id.
pub struct SampleTrees {
    pub entries: Vec<(GroupId, MergeTree)>,
}

impl View for SampleTrees {
    type V = Seq<(Seq<int>, MergeTree)>;

    open spec fn view(&self) -> Seq<(Seq<int>, MergeTree)> {
        self.entries@.map_values(|p: (GroupId, MergeTree)| (p.0@, p.1))
    }
}

/// The tree a sample recorded for `key`: the first matching entry.
pub open spec fn tree_for(s: Seq<(Seq<int>, MergeTree)>, key: Seq<int>) -> Option<MergeTree>
    decreases s.len(),
{
    if s.len() == 0 {
        None
    } else if s[0].0 == key {
        Some(s[0].1)
    } else {
        tree_for(s.drop_first(), key)
    }
}

impl SampleTrees {
    /// An empty collection.
    pub fn new() -> (r: SampleTrees)
        ensures
            r@ =~= Seq::<(Seq<int>, MergeTree)>::empty(),
    {
        SampleTrees { entries: Vec::new() }
    }

    /// Records a group's tree.
    pub fn push(&mut self, key: GroupId, t: MergeTree)
        ensures
            final(self)@ == old(self)@.push((key@, t)),
    {
        self.entries.push((key, t));
        proof {
            assert(self@ =~= old(self)@.push((key@, t)));
        }
    }

    /// The tree recorded for `key`, when there is one.
    pub fn get(&self, key: &GroupId) -> (r: Option<&MergeTree>)
        ensures
            match r {
                Some(t) => tree_for(self@, key@) == Some(*t),
                None => tree_for(self@, key@) is None,
            },
    {
        let mut i: usize = 0;
        proof {
            assert(self@.subrange(0, self@.len() as int) =~= self@);
        }
        while i < self.entries.len()
            invariant
                i <= self.entries@.len(),
                tree_for(self@, key@) == tree_for(
                    self@.subrange(i as int, self@.len() as int),
                    key@,
                ),
            decreases self.entries@.len() - i,
        {
            let ghost suf = self@.subrange(i as int, self@.len() as int);
            let hit = self.entries[i].0.same(key);
            proof {
                assert(suf[0] == self@[i as int]);
                assert(self@[i as int].0 == self.entries@[i as int].0@);
                assert(self@[i as int].1 == self.entries@[i as int].1);
            }
            if hit {
                return Some(&self.entries[i].1);
            }
            proof {
                assert(suf.drop_first() =~= self@.subrange(i + 1, self@.len() as int));
            }
            i += 1;
        }
        proof {
            assert(self@.subrange(i as int, self@.len() as int).len() == 0);
        }
        None
    }
}

/// The trees a sample recorded for the given group keys, in key order.
pub open spec fn present_trees(gkeys: Seq<Seq<int>>, smap: Seq<(Seq<int>, MergeTree)>) -> Seq<
    MergeTree,
>
    decreases gkeys.len(),
{
    if gkeys.len() == 0 {
        Seq::empty()
    } else {
        let pre = present_trees(gkeys.drop_last(), smap);
        match tree_for(smap, gkeys.last()) {
            Some(t) => pre.push(t),
            None => pre,
        }
    }
}

/// The group keys a sample recorded, among the given ones, in order.
pub open spec fn present_keys(gkeys: Seq<Seq<int>>, smap: Seq<(Seq<int>, MergeTree)>) -> Seq<
    Seq<int>,
>
    decreases gkeys.len(),
{
    if gkeys.len() == 0 {
        Seq::empty()
    } else {
        let pre = present_keys(gkeys.drop_last(), smap);
        match tree_for(smap, gkeys.last()) {
            Some(t) => pre.push(gkeys.last()),
            None => pre,
        }
    }
}

/// The comma-joined bracketed renderings of a list of trees.
pub open spec fn join_newicks(trees: Seq<MergeTree>) -> Seq<char>
    decreases trees.len(),
{
    if trees.len() == 0 {
        Seq::empty()
    } else if trees.len() == 1 {
        spec_newick(trees[0])
    } else {
        join_newicks(trees.drop_last()) + seq![','] + spec_newick(trees.last())
    }
}

/// The leaves added back for the split-out members: `,d` for each.
pub open spec fn diff_suffix(diff: Seq<int>) -> Seq<char>
    decreases diff.len(),
{
    if diff.len() == 0 {
        Seq::empty()
    } else {
        diff_suffix(diff.drop_last()) + seq![','] + spec_dec(diff.last())
    }
}

/// One sample's representative tree line for a merged group: the present
/// trees joined under one root with the split-out members as singleton
/// leaves; a sample with no present group degenerates to the placeholder
/// `();`.
pub open spec fn sample_tree_line(present: Seq<MergeTree>, diff: Seq<int>) -> Seq<char> {
    if present.len() == 0 {
        seq!['(', ')', ';']
    } else if present.len() == 1 && diff.len() == 0 {
        spec_newick(present[0]) + seq![';']
    } else {
        seq!['('] + join_newicks(present) + diff_suffix(diff) + seq![')', ';']
    }
}

/// The comma-joined canonical ids of a list of groups.
pub open spec fn join_keys(keys: Seq<Seq<int>>) -> Seq<char>
    decreases keys.len(),
{
    if keys.len() == 0 {
        Seq::empty()
    } else if keys.len() == 1 {
        spec_id_str(keys[0])
    } else {
        join_keys(keys.drop_last()) + seq![','] + spec_id_str(keys.last())
    }
}

/// The per-sample fields of the merged-group information line: for each
/// sample its index and its present groups, tab-separated.
pub open spec fn g_inf_tail(
    samples: Seq<Seq<(Seq<int>, MergeTree)>>,
    gkeys: Seq<Seq<int>>,
) -> Seq<char>
    decreases samples.len(),
{
    if samples.len() == 0 {
        Seq::empty()
    } else {
        g_inf_tail(samples.drop_last(), gkeys) + seq!['\t'] + spec_dec(samples.len() - 1)
            + seq!['\t'] + join_keys(present_keys(gkeys, samples.last()))
    }
}

/// The merged-group information line: the merged id, then each sample's
/// fields.
pub open spec fn g_inf_line(
    mid: Seq<int>,
    samples: Seq<Seq<(Seq<int>, MergeTree)>>,
    gkeys: Seq<Seq<int>>,
) -> Seq<char> {
    spec_id_str(mid) + g_inf_tail(samples, gkeys)
}

/// The sample views of a sample list.
pub open spec fn samples_view(v: Seq<SampleTrees>) -> Seq<Seq<(Seq<int>, MergeTree)>> {
    v.map_values(|s: SampleTrees| s@)
}

/// For one merged group, the information line and each sample's
/// representative tree line.
pub fn get_group_trees(
    merged_group: &GroupId,
    groups: &Vec<GroupId>,
    samp_group_trees: &Vec<SampleTrees>,
) -> (r: (String, Vec<String>))
    requires
        merged_group@.len() >= 1,
        forall|k: int| 0 <= k < groups@.len() ==> (#[trigger] groups@[k])@.len() >= 1,
    ensures
        r.1@.len() == samp_group_trees@.len(),
        forall|s: int| 0 <= s < samp_group_trees@.len() ==> (#[trigger] r.1@[s])@
            == sample_tree_line(
            present_trees(views_of(groups@), samples_view(samp_group_trees@)[s]),
            diff_seq(
                merged_group@,
                present_keys(views_of(groups@), samples_view(samp_group_trees@)[s]),
            ),
        ),
        r.0@ == g_inf_line(merged_group@, samples_view(samp_group_trees@), views_of(groups@)),
{
    proof {
        reveal_strlit("(");
        reveal_strlit(")");
        reveal_strlit("(;");
        reveal_strlit("();");
        reveal_strlit(",");
        reveal_strlit(";");
        reveal_strlit(");");
        reveal_strlit("\t");
    }
    let ghost gkeys = views_of(groups@);
    let ghost sv = samples_view(samp_group_trees@);
    let mut samp_nwk: Vec<String> = Vec::new();
    let mut g_inf = merged_group.to_string();
    let mut s: usize = 0;
    proof {
        assert(sv.subrange(0, 0).len() == 0);
        assert(g_inf@ =~= g_inf_line(merged_group@, sv.subrange(0, 0), gkeys));
    }
    while s < samp_group_trees.len()
        invariant
            s <= samp_group_trees@.len(),
            gkeys == views_of(groups@),
            sv == samples_view(samp_group_trees@),
            merged_group@.len() >= 1,
            forall|k: int| 0 <= k < groups@.len() ==> (#[trigger] groups@[k])@.len() >= 1,
            samp_nwk@.len() == s,
            forall|s2: int| 0 <= s2 < s ==> (#[trigger] samp_nwk@[s2])@ == sample_tree_line(
                present_trees(gkeys, sv[s2]),
                diff_seq(merged_group@, present_keys(gkeys, sv[s2])),
            ),
            g_inf@ == g_inf_line(merged_group@, sv.subrange(0, s as int), gkeys),
        decreases samp_group_trees@.len() - s,
    {
        proof {
            reveal_strlit("(");
            reveal_strlit(")");
            reveal_strlit("();");
            reveal_strlit(",");
            reveal_strlit(";");
            reveal_strlit(");");
            reveal_strlit("\t");
        }
        let ghost smap = sv[s as int];
        let mut g_vec: Vec<GroupId> = Vec::new();
        let mut s_trees: Vec<String> = Vec::new();
        let ghost mut presentt = present_trees(gkeys, smap);
        let mut gj: usize = 0;
        proof {
            assert(gkeys.subrange(0, 0).len() == 0);
            assert(views_of(g_vec@) =~= present_keys(gkeys.subrange(0, 0), smap));
        }
        while gj < groups.len()
            invariant
                gj <= groups@.len(),
                gkeys == views_of(groups@),
                s < samp_group_trees@.len(),
                sv == samples_view(samp_group_trees@),
                smap == sv[s as int],
                forall|k: int| 0 <= k < groups@.len() ==> (#[trigger] groups@[k])@.len() >= 1,
                views_of(g_vec@) == present_keys(gkeys.subrange(0, gj as int), smap),
                forall|k: int| 0 <= k < g_vec@.len() ==> (#[trigger] g_vec@[k])@.len() >= 1,
                s_trees@.len() == present_trees(gkeys.subrange(0, gj as int), smap).len(),
                forall|k: int| 0 <= k < s_trees@.len() ==> (#[trigger] s_trees@[k])@
                    == spec_newick(present_trees(gkeys.subrange(0, gj as int), smap)[k]),
            decreases groups@.len() - gj,
        {
            let ghost pre_k = gkeys.subrange(0, gj as int);
            let ghost nxt_k = gkeys.subrange(0, gj as int + 1);
            proof {
                assert(nxt_k.drop_last() =~= pre_k);
                assert(nxt_k.last() == gkeys[gj as int]);
                assert(gkeys[gj as int] == groups@[gj as int]@);
            }
            match samp_group_trees[s].get(&groups[gj]) {
                Some(tree) => {
                    let gcopy = groups[gj].duplicate();
                    g_vec.push(gcopy);
                    let ns = get_binary_rooted_newick_string(tree);
                    s_trees.push(ns);
                    proof {
                        assert(views_of(g_vec@) =~= present_keys(nxt_k, smap));
                        assert(present_trees(nxt_k, smap) =~= present_trees(pre_k, smap).push(
                            tree_for(smap, gkeys[gj as int])->Some_0,
                        ));
                    }
                },
                None => {
                    proof {
                        assert(present_keys(nxt_k, smap) =~= present_keys(pre_k, smap));
                        assert(present_trees(nxt_k, smap) =~= present_trees(pre_k, smap));
                    }
                },
            }
            gj += 1;
        }
        proof {
            assert(gkeys.subrange(0, gkeys.len() as int) =~= gkeys);
        }
        let diff = comp_diff(merged_group, &g_vec);
        let ghost diffv = diff_seq(merged_group@, present_keys(gkeys, smap));
        proof {
            assert(seq_ints(diff@) == diffv);
        }
        let l = s_trees.len();
        let mut cur: String;
        if l == 0 {
            cur = String::from_str("();");
            proof {
                assert(cur@ =~= sample_tree_line(present_trees(gkeys, smap), diffv));
            }
        } else if l == 1 && diff.len() == 0 {
            cur = s_trees[0].clone();
            cur.append(";");
            proof {
                assert(diffv.len() == 0);
                assert(cur@ =~= spec_newick(present_trees(gkeys, smap)[0]) + seq![';']);
                assert(cur@ =~= sample_tree_line(present_trees(gkeys, smap), diffv));
            }
        } else {
            cur = String::from_str("(");
            let ghost presentv = present_trees(gkeys, smap);
            let mut k: usize = 0;
            proof {
                assert(cur@ =~= seq!['('] + join_newicks(presentv.subrange(0, 0)));
            }
            while k < s_trees.len()
                invariant
                    k <= s_trees@.len(),
                    s_trees@.len() == presentv.len(),
                    forall|k2: int| 0 <= k2 < s_trees@.len() ==> (#[trigger] s_trees@[k2])@
                        == spec_newick(presentv[k2]),
                    cur@ == seq!['('] + join_newicks(presentv.subrange(0, k as int)),
                decreases s_trees@.len() - k,
            {
                proof {
                    reveal_strlit("(");
                    reveal_strlit(",");
                }
                if k > 0 {
                    cur.append(",");
                }
                cur.append(s_trees[k].as_str());
                proof {
                    let pre = presentv.subrange(0, k as int);
                    let nxt = presentv.subrange(0, k as int + 1);
                    assert(nxt.drop_last() =~= pre);
                    assert(nxt.last() == presentv[k as int]);
                    if k == 0 {
                        assert(join_newicks(nxt) == spec_newick(presentv[0]));
                        assert(cur@ =~= seq!['('] + join_newicks(nxt));
                    } else {
                        assert(join_newicks(nxt) == join_newicks(pre) + seq![','] + spec_newick(
                            presentv[k as int],
                        ));
                        assert(cur@ =~= seq!['('] + join_newicks(nxt));
                    }
                }
                k += 1;
            }
            proof {
                assert(presentv.subrange(0, presentv.len() as int) =~= presentv);
            }
            let mut dk: usize = 0;
            proof {
                assert(diffv.subrange(0, 0).len() == 0);
                assert(cur@ =~= seq!['('] + join_newicks(presentv) + diff_suffix(
                    diffv.subrange(0, 0),
                ));
            }
            while dk < diff.len()
                invariant
                    dk <= diff@.len(),
                    seq_ints(diff@) == diffv,
                    cur@ == seq!['('] + join_newicks(presentv) + diff_suffix(
                        diffv.subrange(0, dk as int),
                    ),
                decreases diff@.len() - dk,
            {
                proof {
                    reveal_strlit("(");
                    reveal_strlit(",");
                }
                cur.append(",");
                let ds = u64_to_string(diff[dk]);
                cur.append(ds.as_str());
                proof {
                    let pre = diffv.subrange(0, dk as int);
                    let nxt = diffv.subrange(0, dk as int + 1);
                    assert(nxt.drop_last() =~= pre);
                    assert(nxt.last() == diffv[dk as int]);
                    assert(diffv[dk as int] == diff@[dk as int] as int);
                    assert(diff_suffix(nxt) == diff_suffix(pre) + seq![','] + spec_dec(
                        diffv[dk as int],
                    ));
                    assert(cur@ =~= seq!['('] + join_newicks(presentv) + diff_suffix(nxt));
                }
                dk += 1;
            }
            proof {
                assert(diffv.subrange(0, diffv.len() as int) =~= diffv);
            }
            cur.append(");");
            proof {
                assert(presentv.len() >= 1);
                assert(!(presentv.len() == 1 && diffv.len() == 0));
                assert(cur@ =~= sample_tree_line(presentv, diffv));
            }
        }
        samp_nwk.push(cur);
        g_inf.append("\t");
        let si = u64_to_string(s as u64);
        g_inf.append(si.as_str());
        g_inf.append("\t");
        let mut kk: usize = 0;
        let ghost pkeys = present_keys(gkeys, smap);
        proof {
            assert(views_of(g_vec@) == pkeys);
            assert(si@ == spec_dec(s as int));
            assert(pkeys.subrange(0, 0).len() == 0);
            assert(g_inf@ =~= g_inf_line(merged_group@, sv.subrange(0, s as int), gkeys)
                + seq!['\t'] + spec_dec(s as int) + seq!['\t'] + join_keys(
                pkeys.subrange(0, 0),
            ));
        }
        while kk < g_vec.len()
            invariant
                kk <= g_vec@.len(),
                views_of(g_vec@) == pkeys,
                forall|k: int| 0 <= k < g_vec@.len() ==> (#[trigger] g_vec@[k])@.len() >= 1,
                g_inf@ == g_inf_line(merged_group@, sv.subrange(0, s as int), gkeys) + seq!['\t']
                    + spec_dec(s as int) + seq!['\t'] + join_keys(pkeys.subrange(0, kk as int)),
            decreases g_vec@.len() - kk,
        {
            proof {
                reveal_strlit(",");
            }
            if kk > 0 {
                g_inf.append(",");
            }
            let ks = g_vec[kk].to_string();
            g_inf.append(ks.as_str());
            proof {
                let pre = pkeys.subrange(0, kk as int);
                let nxt = pkeys.subrange(0, kk as int + 1);
                assert(nxt.drop_last() =~= pre);
                assert(nxt.last() == pkeys[kk as int]);
                assert(pkeys[kk as int] == g_vec@[kk as int]@);
                if kk == 0 {
                    assert(join_keys(nxt) == spec_id_str(pkeys[0]));
                } else {
                    assert(join_keys(nxt) == join_keys(pre) + seq![','] + spec_id_str(
                        pkeys[kk as int],
                    ));
                }
                assert(g_inf@ =~= g_inf_line(merged_group@, sv.subrange(0, s as int), gkeys)
                    + seq!['\t'] + spec_dec(s as int) + seq!['\t'] + join_keys(nxt));
            }
            kk += 1;
        }
        proof {
            assert(pkeys.subrange(0, pkeys.len() as int) =~= pkeys);
            let pre_s = sv.subrange(0, s as int);
            let nxt_s = sv.subrange(0, s as int + 1);
            assert(nxt_s.drop_last() =~= pre_s);
            assert(nxt_s.last() == smap);
            assert(g_inf_tail(nxt_s, gkeys) == g_inf_tail(pre_s, gkeys) + seq!['\t'] + spec_dec(
                nxt_s.len() - 1,
            ) + seq!['\t'] + join_keys(present_keys(gkeys, smap)));
            assert(nxt_s.len() - 1 == s as int);
            assert(g_inf@ =~= g_inf_line(merged_group@, nxt_s, gkeys));
        }
        s += 1;
    }
    proof {
        assert(sv.subrange(0, sv.len() as int) =~= sv);
    }
    (g_inf, samp_nwk)
}

/// For each merged super-group, in order of first appearance, the original
/// groups that fall into it, in input order.
pub open spec fn olds_for(
    keys: Seq<Seq<int>>,
    ps: Seq<(int, int)>,
    n: int,
    mk: Seq<int>,
) -> Seq<Seq<int>>
    decreases keys.len(),
{
    if keys.len() == 0 {
        Seq::empty()
    } else {
        olds_for(keys.drop_last(), ps, n, mk) + if merged_members(ps, n, keys.last()[0]) == mk {
            seq![keys.last()]
        } else {
            Seq::empty()
        }
    }
}

/// Whether some entry of a merged-group listing carries the key `key`.
pub open spec fn has_merged_entry(rv: Seq<(GroupId, Vec<GroupId>)>, key: Seq<int>) -> bool {
    exists|j: int| 0 <= j < rv.len() && (#[trigger] rv[j]).0@ == key
}

/// Maps each merged super-group, in order of first appearance, to the
/// original groups that fall into it, in input order.
pub fn find_groups_in_merged(all_groups: &Vec<GroupId>, ntxps: usize) -> (r: Vec<
    (GroupId, Vec<GroupId>),
>)
    requires
        forall|k: int| 0 <= k < all_groups@.len() ==> (#[trigger] all_groups@[k]).wf(),
        forall|k: int, e: int| 0 <= k < all_groups@.len() && 0 <= e < all_groups@[k]@.len()
            ==> 0 <= #[trigger] all_groups@[k]@[e] < ntxps as int,
    ensures
        ({
            let ps = pairs_of_groups(views_of(all_groups@));
            let n = ntxps as int;
            &&& forall|j: int| 0 <= j < r@.len() ==> (#[trigger] r@[j]).0.wf()
            &&& forall|j1: int, j2: int| 0 <= j1 < j2 < r@.len()
                ==> (#[trigger] r@[j1]).0@ != (#[trigger] r@[j2]).0@
            &&& forall|i: int| 0 <= i < all_groups@.len() ==> has_merged_entry(
                r@,
                merged_members(ps, n, (#[trigger] all_groups@[i])@[0]),
            )
            &&& forall|j: int| 0 <= j < r@.len() ==> views_of((#[trigger] r@[j]).1@) == olds_for(
                views_of(all_groups@),
                ps,
                n,
                r@[j].0@,
            )
        }),
{
    let ghost gv = views_of(all_groups@);
    let ghost n = ntxps as int;
    let uf = crate::disjoint::create_union_find(all_groups, ntxps);
    let ghost m = crate::disjoint::uf_model(uf);
    let ghost ps = pairs_of_groups(gv);
    let mut mkeys: Vec<GroupId> = Vec::new();
    let mut i: usize = 0;
    while i < all_groups.len()
        invariant
            i <= all_groups@.len(),
            gv == views_of(all_groups@),
            n == ntxps as int,
            ps == pairs_of_groups(gv),
            forall|q: int| 0 <= q < all_groups@.len() ==> (#[trigger] all_groups@[q]).wf(),
            forall|q: int, e: int| 0 <= q < all_groups@.len() && 0 <= e < all_groups@[q]@.len()
                ==> 0 <= #[trigger] all_groups@[q]@[e] < ntxps as int,
            m == crate::disjoint::uf_model(uf),
            crate::disjoint::uf_wf(m, n),
            forall|x: int, y: int| 0 <= x < n && 0 <= y < n
                ==> ((#[trigger] m[x] == #[trigger] m[y]) <==> same_after(ps, x, y)),
            mkeys@.len() == i,
            forall|q: int| 0 <= q < i ==> (#[trigger] mkeys@[q]).wf(),
            forall|q: int| 0 <= q < i
                ==> (#[trigger] mkeys@[q])@ == merged_members(ps, n, all_groups@[q]@[0]),
        decreases all_groups@.len() - i,
    {
        let anchor64 = all_groups[i].anchor();
        proof {
            assert(0 <= all_groups@[i as int]@[0] < ntxps as int);
        }
        let anchor = anchor64 as usize;
        proof {
            assert(m.contains_key(anchor as int));
        }
        let root = crate::disjoint::uf_find(&uf, anchor);
        let members = crate::disjoint::class_of(&uf, root, ntxps);
        proof {
            crate::disjoint::lemma_class_upto_props(m, root as int, n);
            crate::aggregate::lemma_merged_is_class(m, ps, n, anchor as int, n);
            assert(root as int == m[anchor as int]);
            assert(seq_ints(members@) == merged_members(ps, n, anchor as int));
            assert(crate::disjoint::class_seq(m, root as int, n).contains(anchor as int));
            assert(seq_ints(members@).len() >= 1);
            assert(members@.len() == seq_ints(members@).len());
        }
        let mg = GroupId::from_sorted(members);
        mkeys.push(mg);
        i += 1;
    }
    let mut out: Vec<(GroupId, Vec<GroupId>)> = Vec::new();
    let mut i3: usize = 0;
    while i3 < all_groups.len()
        invariant
            i3 <= all_groups@.len(),
            gv == views_of(all_groups@),
            n == ntxps as int,
            ps == pairs_of_groups(gv),
            forall|q: int| 0 <= q < all_groups@.len() ==> (#[trigger] all_groups@[q]).wf(),
            mkeys@.len() == all_groups@.len(),
            forall|q: int| 0 <= q < all_groups@.len() ==> (#[trigger] mkeys@[q]).wf(),
            forall|q: int| 0 <= q < all_groups@.len()
                ==> (#[trigger] mkeys@[q])@ == merged_members(ps, n, all_groups@[q]@[0]),
            forall|j: int| 0 <= j < out@.len() ==> (#[trigger] out@[j]).0.wf(),
            forall|j1: int, j2: int| 0 <= j1 < j2 < out@.len()
                ==> (#[trigger] out@[j1]).0@ != (#[trigger] out@[j2]).0@,
            forall|j: int| 0 <= j < out@.len() ==> exists|q: int| 0 <= q < i3
                && (#[trigger] out@[j]).0@ == mkeys@[q]@,
            forall|q: int| 0 <= q < i3 ==> has_merged_entry(out@, (#[trigger] mkeys@[q])@),
            forall|j: int| 0 <= j < out@.len() ==> views_of((#[trigger] out@[j]).1@) == olds_for(
                gv,
                ps,
                n,
                out@[j].0@,
            ),
        decreases all_groups@.len() - i3,
    {
        let mut seen = false;
        let mut q: usize = 0;
        while q < i3
            invariant
                q <= i3,
                i3 < all_groups@.len(),
                mkeys@.len() == all_groups@.len(),
                seen == exists|q2: int| 0 <= q2 < q
                    && (#[trigger] mkeys@[q2])@ == mkeys@[i3 as int]@,
            decreases i3 - q,
        {
            let hit = mkeys[q].same(&mkeys[i3]);
            proof {
                if hit {
                    assert(mkeys@[q as int]@ == mkeys@[i3 as int]@);
                }
            }
            seen = seen || hit;
            q += 1;
        }
        if !seen {
            let mut olds: Vec<GroupId> = Vec::new();
            proof {
                assert(gv.subrange(0, 0).len() == 0);
                assert(views_of(olds@) =~= olds_for(gv.subrange(0, 0), ps, n, mkeys@[i3 as int]@));
            }
            let mut j: usize = 0;
            while j < all_groups.len()
                invariant
                    j <= all_groups@.len(),
                    i3 < all_groups@.len(),
                    gv == views_of(all_groups@),
                    n == ntxps as int,
                    ps == pairs_of_groups(gv),
                    forall|q2: int| 0 <= q2 < all_groups@.len()
                        ==> (#[trigger] all_groups@[q2]).wf(),
                    mkeys@.len() == all_groups@.len(),
                    forall|q2: int| 0 <= q2 < all_groups@.len()
                        ==> (#[trigger] mkeys@[q2])@ == merged_members(ps, n, all_groups@[q2]@[0]),
                    views_of(olds@) == olds_for(
                        gv.subrange(0, j as int),
                        ps,
                        n,
                        mkeys@[i3 as int]@,
                    ),
                decreases all_groups@.len() - j,
            {
                let hit = mkeys[j].same(&mkeys[i3]);
                if hit {
                    let oc = all_groups[j].duplicate();
                    olds.push(oc);
                }
                proof {
                    let mk = mkeys@[i3 as int]@;
                    let pre = gv.subrange(0, j as int);
                    let nxt = gv.subrange(0, j as int + 1);
                    assert(nxt.drop_last() =~= pre);
                    assert(nxt.last() == gv[j as int]);
                    assert(gv[j as int] == all_groups@[j as int]@);
                    assert((merged_members(ps, n, nxt.last()[0]) == mk) == (mkeys@[j as int]@
                        == mk));
                    if hit {
                        assert(views_of(olds@) =~= olds_for(pre, ps, n, mk) + seq![
                            gv[j as int],
                        ]);
                        assert(olds_for(nxt, ps, n, mk) == olds_for(pre, ps, n, mk) + seq![
                            nxt.last(),
                        ]);
                    } else {
                        assert(olds_for(nxt, ps, n, mk) =~= olds_for(pre, ps, n, mk));
                    }
                }
                j += 1;
            }
            proof {
                assert(gv.subrange(0, gv.len() as int) =~= gv);
            }
            let nk = mkeys[i3].duplicate();
            let ghost out0 = out@;
            out.push((nk, olds));
            proof {
                assert(out@.drop_last() =~= out0);
                assert(out@[out@.len() - 1].0@ == mkeys@[i3 as int]@);
                assert forall|j1: int, j2: int| 0 <= j1 < j2 < out@.len()
                    implies (#[trigger] out@[j1]).0@ != (#[trigger] out@[j2]).0@ by {
                    if j2 == out@.len() - 1 {
                        assert(out@[j1] == out0[j1]);
                        let q2 = choose|q2: int| 0 <= q2 < i3 && (#[trigger] out0[j1]).0@
                            == mkeys@[q2]@;
                        assert(!(mkeys@[q2]@ == mkeys@[i3 as int]@));
                    } else {
                        assert(out@[j1] == out0[j1]);
                        assert(out@[j2] == out0[j2]);
                    }
                }
                assert forall|q2: int| 0 <= q2 < i3 + 1
                    implies has_merged_entry(out@, (#[trigger] mkeys@[q2])@) by {
                    if q2 < i3 {
                        let jj = choose|jj: int| 0 <= jj < out0.len() && (#[trigger] out0[jj]).0@
                            == mkeys@[q2]@;
                        assert(out@[jj].0@ == mkeys@[q2]@);
                    } else {
                        assert(out@[out@.len() - 1].0@ == mkeys@[q2]@);
                    }
                }
                assert forall|j2: int| 0 <= j2 < out@.len()
                    implies views_of((#[trigger] out@[j2]).1@) == olds_for(gv, ps, n, out@[j2].0@)
                    by {
                    if j2 < out@.len() - 1 {
                        assert(out@[j2] == out0[j2]);
                    }
                }
            }
        } else {
            proof {
                assert forall|q2: int| 0 <= q2 < i3 + 1
                    implies has_merged_entry(out@, (#[trigger] mkeys@[q2])@) by {
                    if q2 == i3 {
                        let q3 = choose|q3: int| 0 <= q3 < i3 && (#[trigger] mkeys@[q3])@
                            == mkeys@[i3 as int]@;
                        let jj = choose|jj: int| 0 <= jj < out@.len() && (#[trigger] out@[jj]).0@
                            == mkeys@[q3]@;
                        assert(out@[jj].0@ == mkeys@[q2]@);
                    }
                }
            }
        }
        i3 += 1;
    }
    proof {
        assert forall|i4: int| 0 <= i4 < all_groups@.len() implies has_merged_entry(
            out@,
            merged_members(ps, n, (#[trigger] all_groups@[i4])@[0]),
        ) by {
            assert(has_merged_entry(out@, mkeys@[i4]@));
        }
    }
    out
}

} // verus!
