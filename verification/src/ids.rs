//! Canonical group identifiers: the numerically sorted member list of a
//! group, its underscore-joined decimal rendering, and the parser for that
//! rendering.

use vstd::prelude::*;
use crate::digits::{
    digit_char, digit_run_end, digit_val, is_digit_char, lemma_dec_shape,
    lemma_digit_run_end_props, lemma_num_val_nonneg, lemma_parse_num_of_dec, num_val, parse_num, spec_dec,
    spec_parse_num, str_to_chars, u64_to_string,
};

verus! {

/// The members of a sequence, read as unbounded integers.
pub open spec fn seq_ints(s: Seq<u64>) -> Seq<int> {
    s.map_values(|x: u64| x as int)
}

/// Strictly ascending: each member is below the next.
pub open spec fn strictly_sorted(s: Seq<int>) -> bool {
    forall|i: int, j: int| 0 <= i < j < s.len() ==> s[i] < s[j]
}

/// Ascending, with repeats allowed.
pub open spec fn sorted(s: Seq<int>) -> bool {
    forall|i: int, j: int| 0 <= i < j < s.len() ==> s[i] <= s[j]
}

/// The underscore-joined decimal rendering of a member list.
pub open spec fn spec_id_str(s: Seq<int>) -> Seq<char>
    recommends
        s.len() >= 1,
    decreases s.len(),
{
    if s.len() <= 1 {
        spec_dec(s[0])
    } else {
        spec_dec(s[0]) + seq!['_'] + spec_id_str(s.drop_first())
    }
}

/// A group identifier: the numerically sorted, duplicate-free list of the
/// transcript indices that make up a group.  Its canonical text form is
/// `spec_id_str` of the members.
pub struct GroupId {
    pub members: Vec<u64>,
}

impl View for GroupId {
    type V = Seq<int>;

    open spec fn view(&self) -> Seq<int> {
        seq_ints(self.members@)
    }
}

impl GroupId {
    /// A well-formed identifier is nonempty and strictly ascending.
    pub open spec fn wf(self) -> bool {
        self@.len() >= 1 && strictly_sorted(self@)
    }

    /// Builds an identifier from an already sorted member list.
    pub fn from_sorted(members: Vec<u64>) -> (r: GroupId)
        requires
            members@.len() >= 1,
            strictly_sorted(seq_ints(members@)),
        ensures
            r.wf(),
            r@ == seq_ints(members@),
    {
        GroupId { members }
    }

    /// The lowest member: the anchor that stands for the group across
    /// samples.
    pub fn anchor(&self) -> (r: u64)
        requires
            self.wf(),
        ensures
            r as int == self@[0],
    {
        self.members[0]
    }

    /// Whether `x` is one of the members, by binary-search-free linear scan.
    pub fn contains(&self, x: u64) -> (r: bool)
        ensures
            r == self@.contains(x as int),
    {
        let mut i: usize = 0;
        while i < self.members.len()
            invariant
                i <= self.members@.len(),
                forall|k: int| 0 <= k < i ==> self@[k] != x as int,
            decreases self.members@.len() - i,
        {
            if self.members[i] == x {
                assert(self@[i as int] == x as int);
                return true;
            }
            i += 1;
        }
        assert(forall|k: int| 0 <= k < self@.len() ==> self@[k] != x as int);
        false
    }

    /// Structural equality of two identifiers.
    pub fn same(&self, other: &GroupId) -> (r: bool)
        ensures
            r == (self@ == other@),
    {
        let r = self.members == other.members;
        proof {
            if r {
                assert(self@ =~= other@);
            } else {
                if self@ == other@ {
                    assert(self@.len() == self.members@.len());
                    assert(other@.len() == other.members@.len());
                    assert(self.members@.len() == other.members@.len());
                    assert forall|i: int| 0 <= i < self.members@.len()
                        implies self.members@[i] == other.members@[i] by {
                        assert(self@[i] == other@[i]);
                        assert(self@[i] == self.members@[i] as int);
                        assert(other@[i] == other.members@[i] as int);
                    }
                    assert(self.members@ =~= other.members@);
                }
            }
        }
        r
    }

    /// A copy of the identifier.
    pub fn duplicate(&self) -> (r: GroupId)
        ensures
            r@ == self@,
            r.members@ == self.members@,
    {
        let mut members: Vec<u64> = Vec::new();
        let mut i: usize = 0;
        while i < self.members.len()
            invariant
                i <= self.members@.len(),
                members@ == self.members@.subrange(0, i as int),
            decreases self.members@.len() - i,
        {
            members.push(self.members[i]);
            proof {
                assert(members@ =~= self.members@.subrange(0, i + 1));
            }
            i += 1;
        }
        proof {
            assert(members@ =~= self.members@);
        }
        GroupId { members }
    }

    /// The canonical text form of the identifier.
    pub fn to_string(&self) -> (r: String)
        requires
            self@.len() >= 1,
        ensures
            r@ == spec_id_str(self@),
    {
        let r = render_ids_from(&self.members, 0);
        proof {
            assert(seq_ints(self.members@).subrange(0, self.members@.len() as int)
                =~= self@);
        }
        r
    }
}

/// Renders `v[k..]` underscore-joined.
fn render_ids_from(v: &Vec<u64>, k: usize) -> (r: String)
    requires
        k < v@.len(),
    ensures
        r@ == spec_id_str(seq_ints(v@).subrange(k as int, v@.len() as int)),
    decreases v@.len() - k,
{
    let n = v.len();
    let mut s = u64_to_string(v[k]);
    if k + 1 < n {
        proof {
            reveal_strlit("_");
        }
        s.append("_");
        let ghost tail = seq_ints(v@).subrange(k + 1 as int, v@.len() as int);
        let rest = render_ids_from(v, k + 1);
        s.append(rest.as_str());
        proof {
            let whole = seq_ints(v@).subrange(k as int, v@.len() as int);
            assert(whole.drop_first() =~= tail);
            assert(whole[0] == v@[k as int] as int);
            assert(s@ =~= spec_id_str(whole));
        }
    } else {
        proof {
            let whole = seq_ints(v@).subrange(k as int, v@.len() as int);
            assert(whole.len() == 1);
            assert(whole[0] == v@[k as int] as int);
            assert(spec_id_str(whole) == spec_dec(whole[0]));
            assert(s@ == spec_id_str(whole));
        }
    }
    s
}

/// Parses an underscore-joined list of canonical decimal numbers, starting
/// at `i`.  `None` when the text from `i` on is not such a list.
pub open spec fn spec_parse_ids(s: Seq<char>, i: int) -> Option<Seq<int>>
    recommends
        0 <= i <= s.len(),
    decreases s.len() - i,
{
    match spec_parse_num(s, i) {
        None => None,
        Some((v, j)) => {
            if i < j && (j == i + 1 || s[i] != '0') {
                if j == s.len() {
                    Some(seq![v as int])
                } else if j < s.len() && s[j] == '_' {
                    match spec_parse_ids(s, j + 1) {
                        None => None,
                        Some(rest) => Some(seq![v as int] + rest),
                    }
                } else {
                    None
                }
            } else {
                None
            }
        },
    }
}

/// What a successful parse yields: values in range, and the input is exactly
/// their rendering.
pub proof fn lemma_parse_ids_sound(s: Seq<char>, i: int, xs: Seq<int>)
    requires
        0 <= i <= s.len(),
        spec_parse_ids(s, i) == Some(xs),
    ensures
        xs.len() >= 1,
        forall|k: int| 0 <= k < xs.len() ==> 0 <= #[trigger] xs[k] <= u64::MAX,
        spec_id_str(xs) =~= s.subrange(i, s.len() as int),
    decreases s.len() - i,
{
    let j = digit_run_end(s, i);
    lemma_digit_run_end_props(s, i);
    lemma_num_val_nonneg(s, i, j);
    let n = num_val(s, i, j);
    assert(spec_parse_num(s, i) == Some((n as u64, j)));
    assert((n as u64) as int == n);
    lemma_canonical_digits_render(s, i, j);
    assert(spec_dec(n) =~= s.subrange(i, j));
    if j == s.len() {
        assert(xs == seq![n]);
        assert(spec_id_str(xs) == spec_dec(n));
        assert(spec_id_str(xs) =~= s.subrange(i, s.len() as int));
    } else {
        let rest = spec_parse_ids(s, j + 1)->Some_0;
        lemma_parse_ids_sound(s, j + 1, rest);
        assert(xs == seq![n] + rest);
        assert(xs.drop_first() =~= rest);
        assert(xs.len() >= 2);
        assert(xs[0] == n);
        assert(spec_id_str(xs) == spec_dec(n) + seq!['_'] + spec_id_str(rest));
        assert(spec_id_str(rest) =~= s.subrange(j + 1, s.len() as int));
        assert(s[j] == '_');
        assert(spec_dec(n) + seq!['_'] + spec_id_str(rest)
            =~= s.subrange(i, s.len() as int));
    }
}

/// A digit run without a leading zero is the canonical rendering of its
/// value.
pub proof fn lemma_canonical_digits_render(s: Seq<char>, i: int, j: int)
    requires
        0 <= i <= s.len(),
        spec_parse_num(s, i) is Some,
        j == digit_run_end(s, i),
        j == i + 1 || s[i] != '0',
    ensures
        spec_dec(num_val(s, i, j)) =~= s.subrange(i, j),
        i < j,
    decreases j - i,
{
    lemma_digit_run_end_props(s, i);
    lemma_canonical_digits_render_aux(s, i, j);
}

/// Inductive core of `lemma_canonical_digits_render`, over the run `[i, j)`.
proof fn lemma_canonical_digits_render_aux(s: Seq<char>, i: int, j: int)
    requires
        0 <= i < j <= s.len(),
        forall|k: int| i <= k < j ==> is_digit_char(#[trigger] s[k]),
        j == i + 1 || s[i] != '0',
    ensures
        spec_dec(num_val(s, i, j)) =~= s.subrange(i, j),
        num_val(s, i, j) >= 0,
        j > i + 1 ==> num_val(s, i, j) >= 10,
    decreases j - i,
{
    if j == i + 1 {
        assert(num_val(s, i, i) == 0);
        assert(num_val(s, i, j) == num_val(s, i, i) * 10 + digit_val(s[i]));
        assert(spec_dec(digit_val(s[i])) =~= s.subrange(i, j)) by {
            assert(digit_char(digit_val(s[i])) == s[i]);
        }
    } else {
        lemma_canonical_digits_render_aux(s, i, j - 1);
        let a = num_val(s, i, j - 1);
        let d = digit_val(s[j - 1]);
        assert(num_val(s, i, j) == a * 10 + d);
        assert(a >= 1) by {
            if j - 1 > i + 1 {
            } else {
                assert(num_val(s, i, i) == 0);
                assert(a == num_val(s, i, i) * 10 + digit_val(s[i]));
                assert(s[i] != '0');
            }
        }
        assert(a * 10 + d >= 10) by (nonlinear_arith)
            requires
                a >= 1,
                d >= 0,
            ;
        assert((a * 10 + d) / 10 == a && (a * 10 + d) % 10 == d) by (nonlinear_arith)
            requires
                a >= 0,
                0 <= d < 10,
            ;
        assert(spec_dec(a * 10 + d) == spec_dec(a).push(digit_char(d)));
        assert(digit_char(d) == s[j - 1]);
        assert(spec_dec(a) =~= s.subrange(i, j - 1));
        assert(spec_dec(a * 10 + d) =~= s.subrange(i, j));
    }
}

/// Parsing right after rendering: the rendering of any in-range member list
/// parses back to that list.
pub proof fn lemma_parse_ids_complete(s: Seq<char>, i: int, xs: Seq<int>)
    requires
        0 <= i <= s.len(),
        xs.len() >= 1,
        forall|k: int| 0 <= k < xs.len() ==> 0 <= #[trigger] xs[k] <= u64::MAX,
        s.subrange(i, s.len() as int) == spec_id_str(xs),
    ensures
        spec_parse_ids(s, i) == Some(xs),
    decreases xs.len(),
{
    let x0 = xs[0];
    let d = spec_dec(x0);
    lemma_dec_shape(x0);
    if xs.len() == 1 {
        assert(s.len() - i == d.len());
        assert forall|k: int| 0 <= k < d.len() implies s[i + k] == #[trigger] d[k] by {
            assert(s.subrange(i, s.len() as int)[k] == s[i + k]);
            assert(spec_id_str(xs)[k] == d[k]);
        }
        lemma_parse_num_of_dec(x0 as u64, s, i);
        let j = i + d.len();
        assert(spec_parse_num(s, i) == Some((x0 as u64, j)));
        assert(j == i + 1 || s[i] != '0') by {
            if d.len() > 1 {
                assert(s[i] == d[0]);
                assert(d[0] == '0' ==> x0 == 0);
                assert(x0 == 0 ==> d.len() == 1);
            }
        }
        assert(spec_parse_ids(s, i) == Some(seq![x0]));
        assert(seq![x0] =~= xs);
    } else {
        let tail = xs.drop_first();
        let rendered = spec_id_str(xs);
        assert(rendered == d + seq!['_'] + spec_id_str(tail));
        let j = i + d.len();
        assert forall|k: int| 0 <= k < d.len() implies s[i + k] == #[trigger] d[k] by {
            assert(s.subrange(i, s.len() as int)[k] == s[i + k]);
            assert(rendered[k] == (d + seq!['_'])[k]);
            assert((d + seq!['_'])[k] == d[k]);
        }
        assert(s[j] == '_') by {
            assert(s.subrange(i, s.len() as int)[d.len() as int] == s[j]);
            assert(rendered[d.len() as int] == (d + seq!['_'])[d.len() as int]);
            assert((d + seq!['_'])[d.len() as int] == '_');
        }
        assert(!is_digit_char(s[j]));
        lemma_parse_num_of_dec(x0 as u64, s, i);
        assert(spec_parse_num(s, i) == Some((x0 as u64, j)));
        assert(j == i + 1 || s[i] != '0') by {
            if d.len() > 1 {
                assert(s[i] == d[0]);
                assert(d[0] == '0' ==> x0 == 0);
                assert(x0 == 0 ==> d.len() == 1);
            }
        }
        assert(s.subrange(j + 1, s.len() as int).len() == spec_id_str(tail).len());
        assert forall|k: int| 0 <= k < spec_id_str(tail).len()
            implies s.subrange(j + 1, s.len() as int)[k] == spec_id_str(tail)[k] by {
            assert(s.subrange(j + 1, s.len() as int)[k] == s[j + 1 + k]);
            assert(s[j + 1 + k] == s.subrange(i, s.len() as int)[d.len() + 1 + k]);
            assert(rendered[d.len() + 1 + k] == spec_id_str(tail)[k]) by {
                assert(rendered == (d + seq!['_']) + spec_id_str(tail));
                assert((d + seq!['_']).len() == d.len() + 1);
            }
        }
        assert(s.subrange(j + 1, s.len() as int) =~= spec_id_str(tail));
        lemma_parse_ids_complete(s, j + 1, tail);
        assert(spec_parse_ids(s, i) == Some(seq![x0] + tail));
        assert(seq![x0] + tail =~= xs);
    }
}

/// Reads an underscore-joined list of numbers; the exec counterpart of
/// `spec_parse_ids` at position zero.
pub fn parse_id_list(s: &str) -> (r: Option<Vec<u64>>)
    ensures
        match r {
            Some(v) => spec_parse_ids(s@, 0) == Some(seq_ints(v@)),
            None => spec_parse_ids(s@, 0) is None,
        },
{
    let chars = str_to_chars(s);
    let mut acc: Vec<u64> = Vec::new();
    let mut i: usize = 0;
    loop
        invariant
            i <= chars@.len(),
            chars@ == s@,
            match spec_parse_ids(s@, i as int) {
                Some(rest) => spec_parse_ids(s@, 0) == Some(seq_ints(acc@) + rest),
                None => spec_parse_ids(s@, 0) is None,
            },
        decreases chars@.len() - i,
    {
        let start = i;
        match parse_num(&chars, i) {
            None => {
                return None;
            },
            Some((value, j)) => {
                if j > start + 1 && chars[start] == '0' {
                    return None;
                }
                acc.push(value);
                if j == chars.len() {
                    proof {
                        assert(spec_parse_ids(s@, start as int)
                            == Some(seq![value as int]));
                        assert(seq_ints(acc@)
                            =~= seq_ints(acc@.drop_last()) + seq![value as int]);
                    }
                    return Some(acc);
                }
                if chars[j] != '_' {
                    proof {
                        assert(spec_parse_ids(s@, start as int) is None);
                    }
                    return None;
                }
                proof {
                    assert(spec_parse_ids(s@, start as int) == match spec_parse_ids(
                        s@,
                        j + 1 as int,
                    ) {
                        None => None,
                        Some(rest) => Some(seq![value as int] + rest),
                    });
                    if spec_parse_ids(s@, j + 1 as int) is Some {
                        let rest = spec_parse_ids(s@, j + 1 as int)->Some_0;
                        assert(seq_ints(acc@.drop_last()) + (seq![value as int] + rest)
                            =~= seq_ints(acc@) + rest) by {
                            assert(seq_ints(acc@)
                                =~= seq_ints(acc@.drop_last()) + seq![value as int]);
                        }
                    }
                }
                i = j + 1;
            },
        }
    }
}

} // verus!
