//! Bipartition support tables: for one group, how often each tree-node
//! canonical id was seen; and the key-wise summing of such tables when
//! groups from several samples fall into one merged group.

use vstd::prelude::*;
use crate::ids::GroupId;
use crate::tree::{canonical_seq, MergeTree};
use vstd::multiset::Multiset;

verus! {

/// The canonical ids of a tree and of everything beneath it, preorder.
pub open spec fn all_ids(t: MergeTree) -> Seq<Seq<int>>
    decreases t,
{
    match t {
        MergeTree::Leaf(_) => seq![canonical_seq(t)],
        MergeTree::Node(l, r) => seq![canonical_seq(t)] + all_ids(*l) + all_ids(*r),
    }
}

/// The bipartition keys a group tree contributes: the canonical id of every
/// node strictly below the root.
pub open spec fn bipart_ids(t: MergeTree) -> Seq<Seq<int>>
    decreases t,
{
    match t {
        MergeTree::Leaf(_) => Seq::empty(),
        MergeTree::Node(l, r) => all_ids(*l) + all_ids(*r),
    }
}

/// The count a table holds for `key`: the first matching entry, zero when
/// none matches.
pub open spec fn count_of(s: Seq<(Seq<int>, u32)>, key: Seq<int>) -> int
    decreases s.len(),
{
    if s.len() == 0 {
        0
    } else if s[0].0 == key {
        s[0].1 as int
    } else {
        count_of(s.drop_first(), key)
    }
}

/// The keys of a table, in order.
pub open spec fn table_keys(s: Seq<(Seq<int>, u32)>) -> Seq<Seq<int>> {
    s.map_values(|p: (Seq<int>, u32)| p.0)
}

/// No key occurs twice.
pub open spec fn distinct_seqs(keys: Seq<Seq<int>>) -> bool {
    forall|i: int, j: int| 0 <= i < j < keys.len() ==> keys[i] != keys[j]
}

/// Saturated value: counts cap out at the largest `u32`.
pub open spec fn sat_int(x: int) -> int {
    if x > u32::MAX as int {
        u32::MAX as int
    } else {
        x
    }
}

/// A count is never negative and never above the largest `u32`.
pub proof fn lemma_count_of_nonneg(s: Seq<(Seq<int>, u32)>, key: Seq<int>)
    ensures
        0 <= count_of(s, key) <= u32::MAX as int,
    decreases s.len(),
{
    if s.len() > 0 && s[0].0 != key {
        lemma_count_of_nonneg(s.drop_first(), key);
    }
}

/// With distinct keys, the count of the key at index `i` is that entry's
/// value.
pub proof fn lemma_count_of_at(s: Seq<(Seq<int>, u32)>, i: int)
    requires
        distinct_seqs(table_keys(s)),
        0 <= i < s.len(),
    ensures
        count_of(s, s[i].0) == s[i].1 as int,
    decreases i,
{
    if i == 0 {
    } else {
        assert(table_keys(s)[0] == s[0].0);
        assert(table_keys(s)[i] == s[i].0);
        assert(s[0].0 != s[i].0);
        let t = s.drop_first();
        assert(distinct_seqs(table_keys(t))) by {
            assert forall|a: int, b: int| 0 <= a < b < table_keys(t).len()
                implies table_keys(t)[a] != table_keys(t)[b] by {
                assert(table_keys(t)[a] == table_keys(s)[a + 1]);
                assert(table_keys(t)[b] == table_keys(s)[b + 1]);
            }
        }
        assert(t[i - 1] == s[i]);
        lemma_count_of_at(t, i - 1);
    }
}

/// Updating the first entry holding a key changes that key's count alone.
proof fn lemma_count_of_update(s: Seq<(Seq<int>, u32)>, i: int, c2: u32, k: Seq<int>)
    requires
        0 <= i < s.len(),
        forall|q: int| 0 <= q < i ==> (#[trigger] s[q]).0 != s[i].0,
    ensures
        count_of(s.update(i, (s[i].0, c2)), k) == if k == s[i].0 {
            c2 as int
        } else {
            count_of(s, k)
        },
    decreases i,
{
    let s2 = s.update(i, (s[i].0, c2));
    if i == 0 {
        assert(s2[0] == (s[0].0, c2));
        if k != s[0].0 {
            assert(s2.drop_first() =~= s.drop_first());
        }
    } else {
        assert(s2[0] == s[0]);
        let t = s.drop_first();
        assert(t.update(i - 1, (t[i - 1].0, c2)) =~= s2.drop_first());
        assert(forall|q: int| 0 <= q < i - 1 ==> (#[trigger] t[q]).0 != t[i - 1].0);
        lemma_count_of_update(t, i - 1, c2, k);
        if k == s[0].0 {
            assert(k != s[i].0);
        }
    }
}

/// Appending an entry under a fresh key changes that key's count alone.
proof fn lemma_count_of_push(s: Seq<(Seq<int>, u32)>, key: Seq<int>, c: u32, k: Seq<int>)
    requires
        forall|q: int| 0 <= q < s.len() ==> (#[trigger] s[q]).0 != key,
    ensures
        count_of(s.push((key, c)), k) == if k == key {
            c as int
        } else {
            count_of(s, k)
        },
    decreases s.len(),
{
    let s2 = s.push((key, c));
    if s.len() == 0 {
        assert(s2.len() == 1);
        assert(s2[0] == (key, c));
        if k == key {
            assert(count_of(s2, k) == c as int);
        } else {
            assert(count_of(s2, k) == count_of(s2.drop_first(), k));
            assert(s2.drop_first().len() == 0);
            assert(count_of(s, k) == 0);
        }
    } else {
        assert(s2[0] == s[0]);
        assert(s.drop_first().push((key, c)) =~= s2.drop_first());
        lemma_count_of_push(s.drop_first(), key, c, k);
        if k == s[0].0 {
            assert(s[0].0 != key);
        }
    }
}

/// A per-group bipartition support table: each tree-node canonical id seen
/// below the group root, with its occurrence count.
pub struct BipartTable {
    pub entries: Vec<(GroupId, u32)>,
}

impl View for BipartTable {
    type V = Seq<(Seq<int>, u32)>;

    open spec fn view(&self) -> Seq<(Seq<int>, u32)> {
        self.entries@.map_values(|p: (GroupId, u32)| (p.0@, p.1))
    }
}

impl BipartTable {
    /// Each key occurs once.
    pub open spec fn wf(self) -> bool {
        distinct_seqs(table_keys(self@))
    }

    /// An empty table.
    pub fn new() -> (r: BipartTable)
        ensures
            r@ =~= Seq::<(Seq<int>, u32)>::empty(),
            r.wf(),
    {
        BipartTable { entries: Vec::new() }
    }

    /// The count recorded for `key`, zero when absent.
    pub fn get_count(&self, key: &GroupId) -> (r: u32)
        ensures
            r as int == count_of(self@, key@),
    {
        let mut i: usize = 0;
        proof {
            assert(self@.subrange(0, self@.len() as int) =~= self@);
        }
        while i < self.entries.len()
            invariant
                i <= self.entries@.len(),
                count_of(self@, key@) == count_of(
                    self@.subrange(i as int, self@.len() as int),
                    key@,
                ),
            decreases self.entries@.len() - i,
        {
            let ghost suf = self@.subrange(i as int, self@.len() as int);
            let hit = self.entries[i].0.same(key);
            proof {
                assert(suf[0] == self@[i as int]);
                assert(self@[i as int].0 == self.entries@[i as int].0@);
            }
            if hit {
                proof {
                    assert(count_of(suf, key@) == suf[0].1 as int);
                }
                return self.entries[i].1;
            }
            proof {
                assert(suf.drop_first() =~= self@.subrange(i + 1, self@.len() as int));
            }
            i += 1;
        }
        proof {
            assert(self@.subrange(i as int, self@.len() as int).len() == 0);
        }
        0
    }

    /// Adds `c` to the count of `key`, saturating; a fresh key is appended.
    pub fn add_count(&mut self, key: &GroupId, c: u32)
        requires
            old(self).wf(),
        ensures
            final(self).wf(),
            forall|k: Seq<int>| count_of(final(self)@, k) == if k == key@ {
                sat_int(count_of(old(self)@, k) + c as int)
            } else {
                count_of(old(self)@, k)
            },
    {
        let ghost s0 = self@;
        let mut i: usize = 0;
        while i < self.entries.len()
            invariant
                i <= self.entries@.len(),
                self@ == s0,
                s0 == old(self)@,
                self.wf(),
                forall|q: int| 0 <= q < i ==> (#[trigger] s0[q]).0 != key@,
            decreases self.entries@.len() - i,
        {
            let hit = self.entries[i].0.same(key);
            proof {
                assert(s0[i as int].0 == self.entries@[i as int].0@);
            }
            if hit {
                let cur = self.entries[i].1;
                let nv = cur.saturating_add(c);
                let fresh = key.duplicate();
                self.entries[i] = (fresh, nv);
                proof {
                    assert(self@ =~= s0.update(i as int, (s0[i as int].0, nv)));
                    lemma_count_of_update(s0, i as int, nv, key@);
                    assert forall|k: Seq<int>| count_of(self@, k) == (if k == key@ {
                        sat_int(count_of(s0, k) + c as int)
                    } else {
                        count_of(s0, k)
                    }) by {
                        lemma_count_of_update(s0, i as int, nv, k);
                        if k == key@ {
                            lemma_count_of_at_first(s0, i as int);
                            assert(count_of(s0, k) == cur as int);
                            assert(nv as int == sat_int(cur as int + c as int));
                        }
                    }
                    assert(table_keys(self@) =~= table_keys(s0));
                }
                return;
            }
            i += 1;
        }
        let fresh = key.duplicate();
        self.entries.push((fresh, c));
        proof {
            assert(self@ =~= s0.push((key@, c)));
            assert forall|k: Seq<int>| count_of(self@, k) == (if k == key@ {
                sat_int(count_of(s0, k) + c as int)
            } else {
                count_of(s0, k)
            }) by {
                lemma_count_of_push(s0, key@, c, k);
                if k == key@ {
                    lemma_count_of_absent(s0, k);
                }
            }
            assert(final(self).wf()) by {
                let ks = table_keys(self@);
                assert forall|a: int, b: int| 0 <= a < b < ks.len()
                    implies ks[a] != ks[b] by {
                    if b < s0.len() {
                        assert(ks[a] == table_keys(s0)[a]);
                        assert(ks[b] == table_keys(s0)[b]);
                    } else {
                        assert(ks[b] == key@);
                        assert(ks[a] == s0[a].0);
                    }
                }
            }
        }
    }

    /// Adds every count of `other` into this table, key-wise, saturating.
    pub fn merge_from(&mut self, other: &BipartTable)
        requires
            old(self).wf(),
            other.wf(),
        ensures
            final(self).wf(),
            forall|k: Seq<int>| count_of(final(self)@, k) == sat_int(
                count_of(old(self)@, k) + count_of(other@, k),
            ),
    {
        let ghost s0 = old(self)@;
        let ghost ov = other@;
        let mut j: usize = 0;
        while j < other.entries.len()
            invariant
                j <= other.entries@.len(),
                ov == other@,
                other.wf(),
                self.wf(),
                forall|k: Seq<int>| count_of(self@, k) == if table_keys(
                    ov.subrange(0, j as int),
                ).contains(k) {
                    sat_int(count_of(s0, k) + count_of(ov, k))
                } else {
                    count_of(s0, k)
                },
            decreases other.entries@.len() - j,
        {
            let ghost before = self@;
            let c = other.entries[j].1;
            self.add_count(&other.entries[j].0, c);
            proof {
                let key = ov[j as int].0;
                assert(other.entries@[j as int].0@ == key);
                assert(ov[j as int].1 == c);
                lemma_count_of_at(ov, j as int);
                assert(count_of(ov, key) == c as int);
                assert(!table_keys(ov.subrange(0, j as int)).contains(key)) by {
                    if table_keys(ov.subrange(0, j as int)).contains(key) {
                        let q = choose|q: int| 0 <= q < j
                            && table_keys(ov.subrange(0, j as int))[q] == key;
                        assert(table_keys(ov)[q] == key);
                        assert(table_keys(ov)[j as int] == key);
                    }
                }
                assert(count_of(before, key) == count_of(s0, key));
                lemma_count_of_nonneg(s0, key);
                assert(count_of(self@, key) == sat_int(count_of(s0, key) + c as int));
                assert forall|k: Seq<int>| count_of(self@, k) == (if table_keys(
                    ov.subrange(0, j as int + 1),
                ).contains(k) {
                    sat_int(count_of(s0, k) + count_of(ov, k))
                } else {
                    count_of(s0, k)
                }) by {
                    assert(table_keys(ov.subrange(0, j as int + 1)) =~= table_keys(
                        ov.subrange(0, j as int),
                    ).push(key));
                    let tk1 = table_keys(ov.subrange(0, j as int + 1));
                    let tk0 = table_keys(ov.subrange(0, j as int));
                    assert(tk1.contains(k) <==> (tk0.contains(k) || k == key)) by {
                        if tk1.contains(k) {
                            let q = choose|q: int| 0 <= q < tk1.len() && tk1[q] == k;
                            if q < tk0.len() {
                                assert(tk0[q] == k);
                            }
                        }
                        if tk0.contains(k) {
                            let q = choose|q: int| 0 <= q < tk0.len() && tk0[q] == k;
                            assert(tk1[q] == k);
                        }
                        if k == key {
                            assert(tk1[tk1.len() - 1] == k);
                        }
                    }
                }
            }
            j += 1;
        }
        proof {
            assert forall|k: Seq<int>| count_of(self@, k) == sat_int(
                count_of(s0, k) + count_of(ov, k),
            ) by {
                if table_keys(ov.subrange(0, j as int)).contains(k) {
                } else {
                    assert(ov.subrange(0, j as int) =~= ov);
                    assert(!table_keys(ov).contains(k));
                    lemma_count_of_absent_keys(ov, k);
                    lemma_count_of_nonneg(s0, k);
                    assert(sat_int(count_of(s0, k) + 0) == count_of(s0, k));
                }
            }
        }
    }
}

/// At the first occurrence of a key, the count is that entry's value.
proof fn lemma_count_of_at_first(s: Seq<(Seq<int>, u32)>, i: int)
    requires
        0 <= i < s.len(),
        forall|q: int| 0 <= q < i ==> (#[trigger] s[q]).0 != s[i].0,
    ensures
        count_of(s, s[i].0) == s[i].1 as int,
    decreases i,
{
    if i > 0 {
        let t = s.drop_first();
        assert(t[i - 1] == s[i]);
        assert(forall|q: int| 0 <= q < i - 1 ==> (#[trigger] t[q]).0 != t[i - 1].0);
        lemma_count_of_at_first(t, i - 1);
    }
}

/// A key no entry holds counts zero.
proof fn lemma_count_of_absent(s: Seq<(Seq<int>, u32)>, k: Seq<int>)
    requires
        forall|q: int| 0 <= q < s.len() ==> (#[trigger] s[q]).0 != k,
    ensures
        count_of(s, k) == 0,
    decreases s.len(),
{
    if s.len() > 0 {
        lemma_count_of_absent(s.drop_first(), k);
    }
}

/// A key outside the key list counts zero.
proof fn lemma_count_of_absent_keys(s: Seq<(Seq<int>, u32)>, k: Seq<int>)
    requires
        !table_keys(s).contains(k),
    ensures
        count_of(s, k) == 0,
{
    assert forall|q: int| 0 <= q < s.len() implies (#[trigger] s[q]).0 != k by {
        if s[q].0 == k {
            assert(table_keys(s)[q] == k);
        }
    }
    lemma_count_of_absent(s, k);
}

/// A tree's id list is its own canonical id followed by those below it.
proof fn lemma_all_ids_decomp(t: MergeTree)
    ensures
        all_ids(t) == seq![canonical_seq(t)] + bipart_ids(t),
{
    match t {
        MergeTree::Leaf(_) => {
            assert(all_ids(t) =~= seq![canonical_seq(t)] + bipart_ids(t));
        },
        MergeTree::Node(l, r) => {
            assert(all_ids(t) =~= seq![canonical_seq(t)] + bipart_ids(t));
        },
    }
}

/// Occurrences in a concatenation add up.
proof fn lemma_concat_count(a: Seq<Seq<int>>, b: Seq<Seq<int>>, k: Seq<int>)
    ensures
        (a + b).to_multiset().count(k) == a.to_multiset().count(k) + b.to_multiset().count(k),
{
    broadcast use vstd::multiset::group_multiset_axioms;

    vstd::seq_lib::lemma_multiset_commutative(a, b);
}

/// A single id occurs once as itself and never as anything else.
proof fn lemma_singleton_count(c: Seq<int>, k: Seq<int>)
    ensures
        seq![c].to_multiset().count(k) == if k == c { 1int } else { 0int },
{
    broadcast use vstd::seq_lib::group_to_multiset_ensures;
    broadcast use vstd::multiset::group_multiset_axioms;

    assert(seq![c] =~= Seq::empty().push(c));
    assert(Seq::<Seq<int>>::empty().push(c).to_multiset() =~= Seq::<Seq<int>>::empty().to_multiset().insert(c));
    assert(Seq::<Seq<int>>::empty().to_multiset() =~= Multiset::empty());
}

/// Saturated additions compose.
proof fn lemma_sat_chain(x: int, a: int, b: int)
    requires
        x >= 0,
        a >= 0,
        b >= 0,
    ensures
        sat_int(sat_int(x + a) + b) == sat_int(x + a + b),
{
}

/// Tallies the canonical id of every tree node strictly below the root of
/// `t`, once into the cross-sample table and once into the per-sample
/// table.
pub fn compute_bipart_count2(t: &MergeTree, overall: &mut BipartTable, dir_table: &mut BipartTable)
    requires
        old(overall).wf(),
        old(dir_table).wf(),
    ensures
        final(overall).wf(),
        final(dir_table).wf(),
        forall|k: Seq<int>| #[trigger] count_of(final(overall)@, k) == sat_int(
            count_of(old(overall)@, k) + bipart_ids(*t).to_multiset().count(k),
        ),
        forall|k: Seq<int>| #[trigger] count_of(final(dir_table)@, k) == sat_int(
            count_of(old(dir_table)@, k) + bipart_ids(*t).to_multiset().count(k),
        ),
    decreases *t,
{
    broadcast use vstd::multiset::group_multiset_axioms;

    match t {
        MergeTree::Leaf(_) => {
            proof {
                broadcast use vstd::seq_lib::group_to_multiset_ensures;

                assert(bipart_ids(*t).len() == 0);
                assert forall|k: Seq<int>| #[trigger] count_of(overall@, k) == sat_int(
                    count_of(old(overall)@, k) + bipart_ids(*t).to_multiset().count(k),
                ) by {
                    assert(!bipart_ids(*t).contains(k));
                    assert(bipart_ids(*t).to_multiset().count(k) == 0);
                    lemma_count_of_nonneg(overall@, k);
                }
                assert forall|k: Seq<int>| #[trigger] count_of(dir_table@, k) == sat_int(
                    count_of(old(dir_table)@, k) + bipart_ids(*t).to_multiset().count(k),
                ) by {
                    assert(!bipart_ids(*t).contains(k));
                    assert(bipart_ids(*t).to_multiset().count(k) == 0);
                    lemma_count_of_nonneg(dir_table@, k);
                }
            }
        },
        MergeTree::Node(gl, gr) => {
            let ghost o0 = overall@;
            let ghost d0 = dir_table@;
            let lchild = t.left_child();
            let rchild = t.right_child();
            let lid = GroupId { members: lchild.canonical_members() };
            proof {
                assert(lid@ == canonical_seq(**gl));
            }
            overall.add_count(&lid, 1);
            dir_table.add_count(&lid, 1);
            let ghost o1 = overall@;
            let ghost d1 = dir_table@;
            compute_bipart_count2(lchild, overall, dir_table);
            let ghost o2 = overall@;
            let ghost d2 = dir_table@;
            let rid = GroupId { members: rchild.canonical_members() };
            proof {
                assert(rid@ == canonical_seq(**gr));
            }
            overall.add_count(&rid, 1);
            dir_table.add_count(&rid, 1);
            let ghost o3 = overall@;
            let ghost d3 = dir_table@;
            compute_bipart_count2(rchild, overall, dir_table);
            proof {
                let cl = canonical_seq(**gl);
                let cr = canonical_seq(**gr);
                lemma_all_ids_decomp(**gl);
                lemma_all_ids_decomp(**gr);
                assert(bipart_ids(*t) == all_ids(**gl) + all_ids(**gr));
                assert forall|k: Seq<int>| #[trigger] count_of(overall@, k) == sat_int(
                    count_of(o0, k) + bipart_ids(*t).to_multiset().count(k),
                ) by {
                    lemma_tally_count(o0, o1, o2, o3, overall@, **gl, **gr, k);
                }
                assert forall|k: Seq<int>| #[trigger] count_of(dir_table@, k) == sat_int(
                    count_of(d0, k) + bipart_ids(*t).to_multiset().count(k),
                ) by {
                    lemma_tally_count(d0, d1, d2, d3, dir_table@, **gl, **gr, k);
                }
            }
        },
    }
}

/// The per-key arithmetic of one tally step: adding each child id once and
/// then the child's own tallies amounts to adding the whole id list below
/// the root.
proof fn lemma_tally_count(
    s0: Seq<(Seq<int>, u32)>,
    s1: Seq<(Seq<int>, u32)>,
    s2: Seq<(Seq<int>, u32)>,
    s3: Seq<(Seq<int>, u32)>,
    s4: Seq<(Seq<int>, u32)>,
    l: MergeTree,
    r: MergeTree,
    k: Seq<int>,
)
    requires
        count_of(s1, k) == if k == canonical_seq(l) {
            sat_int(count_of(s0, k) + 1)
        } else {
            count_of(s0, k)
        },
        count_of(s2, k) == sat_int(count_of(s1, k) + bipart_ids(l).to_multiset().count(k)),
        count_of(s3, k) == if k == canonical_seq(r) {
            sat_int(count_of(s2, k) + 1)
        } else {
            count_of(s2, k)
        },
        count_of(s4, k) == sat_int(count_of(s3, k) + bipart_ids(r).to_multiset().count(k)),
    ensures
        count_of(s4, k) == sat_int(
            count_of(s0, k) + (all_ids(l) + all_ids(r)).to_multiset().count(k),
        ),
{
    broadcast use vstd::multiset::group_multiset_axioms;

    let c0 = count_of(s0, k);
    lemma_count_of_nonneg(s0, k);
    let dl: int = if k == canonical_seq(l) { 1 } else { 0 };
    let dr: int = if k == canonical_seq(r) { 1 } else { 0 };
    let bl = bipart_ids(l).to_multiset().count(k) as int;
    let br = bipart_ids(r).to_multiset().count(k) as int;
    lemma_all_ids_decomp(l);
    lemma_all_ids_decomp(r);
    lemma_concat_count(all_ids(l), all_ids(r), k);
    lemma_concat_count(seq![canonical_seq(l)], bipart_ids(l), k);
    lemma_concat_count(seq![canonical_seq(r)], bipart_ids(r), k);
    lemma_singleton_count(canonical_seq(l), k);
    lemma_singleton_count(canonical_seq(r), k);
    assert((all_ids(l) + all_ids(r)).to_multiset().count(k) == dl + bl + dr + br);
    assert(count_of(s1, k) == sat_int(c0 + dl));
    lemma_sat_chain(c0, dl, bl);
    assert(count_of(s2, k) == sat_int(c0 + dl + bl));
    lemma_sat_chain(c0, dl + bl, dr);
    assert(count_of(s3, k) == sat_int(c0 + dl + bl + dr));
    lemma_sat_chain(c0, dl + bl + dr, br);
    assert(count_of(s4, k) == sat_int(c0 + dl + bl + dr + br));
}


} // verus!
