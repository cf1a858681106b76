//! The persisted form of a merge tree is its bracketed line, `(left,right);`
//! with numerically indexed leaves.  This module reads that form back and
//! proves the round trip: a rendered tree parses to itself.

use vstd::prelude::*;
use crate::digits::{
    digit_run_end, is_digit_char, lemma_dec_shape, lemma_digit_run_end_props,
    lemma_num_val_nonneg, lemma_parse_num_of_dec, num_val, parse_num, spec_dec, spec_parse_num,
    str_to_chars,
};
use crate::tree::{spec_newick, spec_newick_line, MergeTree};

verus! {

/// Parses one tree starting at `i`: either a leaf index in canonical decimal
/// notation, or `(`, a tree, `,`, a tree, `)`.  On success returns the tree
/// and the position one past it.
pub open spec fn spec_parse_tree(s: Seq<char>, i: int) -> Option<(MergeTree, int)>
    recommends
        0 <= i,
    decreases s.len() - i,
{
    if i < 0 || i >= s.len() {
        None
    } else if s[i] == '(' {
        match spec_parse_tree(s, i + 1) {
            None => None,
            Some((l, j)) => {
                if i < j && j < s.len() && s[j] == ',' {
                    match spec_parse_tree(s, j + 1) {
                        None => None,
                        Some((r, k)) => {
                            if k < s.len() && s[k] == ')' {
                                Some((MergeTree::Node(Box::new(l), Box::new(r)), k + 1))
                            } else {
                                None
                            }
                        },
                    }
                } else {
                    None
                }
            },
        }
    } else {
        match spec_parse_num(s, i) {
            None => None,
            Some((v, j)) => {
                if j == i + 1 || s[i] != '0' {
                    Some((MergeTree::Leaf(v), j))
                } else {
                    None
                }
            },
        }
    }
}

/// Parses a whole serialized tree line: one tree closed by `;`, nothing
/// after it.
pub open spec fn spec_parse_line(s: Seq<char>) -> Option<MergeTree> {
    match spec_parse_tree(s, 0) {
        None => None,
        Some((t, j)) => {
            if j + 1 == s.len() && s[j] == ';' {
                Some(t)
            } else {
                None
            }
        },
    }
}

/// The bracketed rendering is never empty.
pub proof fn lemma_newick_nonempty(t: MergeTree)
    ensures
        spec_newick(t).len() >= 1,
    decreases t,
{
    match t {
        MergeTree::Leaf(v) => {
            lemma_dec_shape(v as int);
        },
        MergeTree::Node(l, r) => {},
    }
}

/// Parsing right after rendering: wherever the rendering of `t` sits in `s`,
/// not followed by a digit, the parser reads back exactly `t`.
pub proof fn lemma_parse_of_newick(t: MergeTree, s: Seq<char>, i: int)
    requires
        0 <= i,
        i + spec_newick(t).len() <= s.len(),
        forall|k: int| 0 <= k < spec_newick(t).len()
            ==> s[i + k] == #[trigger] spec_newick(t)[k],
        i + spec_newick(t).len() < s.len()
            ==> !is_digit_char(s[i + spec_newick(t).len()]),
    ensures
        spec_parse_tree(s, i) == Some((t, i + spec_newick(t).len())),
    decreases t,
{
    let w = spec_newick(t);
    lemma_newick_nonempty(t);
    match t {
        MergeTree::Leaf(v) => {
            let d = spec_dec(v as int);
            assert(w == d);
            lemma_dec_shape(v as int);
            lemma_parse_num_of_dec(v, s, i);
            assert(s[i] == d[0]);
            assert(s[i] != '(');
            let j = i + d.len();
            assert(j == i + 1 || s[i] != '0') by {
                if d.len() > 1 {
                    assert(d[0] == '0' ==> v as int == 0);
                }
            }
            assert(spec_parse_tree(s, i) == Some((t, j)));
        },
        MergeTree::Node(l, r) => {
            let wl = spec_newick(*l);
            let wr = spec_newick(*r);
            lemma_newick_nonempty(*l);
            lemma_newick_nonempty(*r);
            assert(w == seq!['('] + wl + seq![','] + wr + seq![')']);
            assert(w.len() == wl.len() + wr.len() + 3);
            let j = i + 1 + wl.len();
            let k = j + 1 + wr.len();
            assert forall|q: int| 0 <= q < w.len() implies s[i + q] == w[q] by {}
            assert(s[i] == w[0]);
            assert(w[0] == '(') by {
                assert(w[0] == (seq!['('] + wl)[0]);
            }
            assert forall|q: int| 0 <= q < wl.len() implies s[i + 1 + q] == #[trigger] wl[q] by {
                assert(s[i + (1 + q)] == w[1 + q]);
                assert(w[1 + q] == ((seq!['('] + wl) + seq![','])[1 + q]);
                assert(((seq!['('] + wl) + seq![','])[1 + q] == (seq!['('] + wl)[1 + q]);
            }
            assert(s[j] == ',') by {
                let p = 1 + wl.len() as int;
                assert(s[i + p] == w[p]);
                assert(w[p] == ((seq!['('] + wl) + seq![','])[p]);
            }
            lemma_parse_of_newick(*l, s, i + 1);
            assert(spec_parse_tree(s, i + 1) == Some((*l, j)));
            assert forall|q: int| 0 <= q < wr.len() implies s[j + 1 + q] == #[trigger] wr[q] by {
                assert(s[i + (2 + wl.len() + q)] == w[2 + wl.len() + q]);
                assert(w[2 + wl.len() + q]
                    == (((seq!['('] + wl + seq![',']) + wr) + seq![')'])[2 + wl.len() + q]);
                assert((((seq!['('] + wl + seq![',']) + wr) + seq![')'])[2 + wl.len() + q]
                    == wr[q]);
            }
            assert(s[k] == ')') by {
                let p = 2 + wl.len() as int + wr.len() as int;
                assert(s[i + p] == w[p]);
                assert(w == (seq!['('] + wl + seq![','] + wr) + seq![')']);
                assert(w[p] == seq![')'][0]);
            }
            lemma_parse_of_newick(*r, s, j + 1);
            assert(spec_parse_tree(s, j + 1) == Some((*r, k)));
            assert(spec_parse_tree(s, i) == Some((t, k + 1)));
        },
    }
}

/// What a successful parse yields: the input from `i` to `j` is exactly the
/// rendering of the returned tree.
pub proof fn lemma_parse_tree_sound(s: Seq<char>, i: int, t: MergeTree, j: int)
    requires
        0 <= i,
        spec_parse_tree(s, i) == Some((t, j)),
    ensures
        i < j <= s.len(),
        spec_newick(t) =~= s.subrange(i, j),
    decreases s.len() - i,
{
    if s[i] == '(' {
        let (l, jl) = spec_parse_tree(s, i + 1)->Some_0;
        lemma_parse_tree_sound(s, i + 1, l, jl);
        let (r, jr) = spec_parse_tree(s, jl + 1)->Some_0;
        lemma_parse_tree_sound(s, jl + 1, r, jr);
        assert(t == MergeTree::Node(Box::new(l), Box::new(r)));
        assert(j == jr + 1);
        assert(spec_newick(t) == seq!['('] + spec_newick(l) + seq![','] + spec_newick(r)
            + seq![')']);
        assert(spec_newick(l) =~= s.subrange(i + 1, jl));
        assert(spec_newick(r) =~= s.subrange(jl + 1, jr));
        assert(spec_newick(t) =~= s.subrange(i, j)) by {
            assert(s[i] == '(');
            assert(s[jl] == ',');
            assert(s[jr] == ')');
            assert(spec_newick(t).len() == j - i);
            assert forall|q: int| 0 <= q < j - i implies spec_newick(t)[q] == s[i + q] by {
                let wl = spec_newick(l);
                let wr = spec_newick(r);
                if q == 0 {
                } else if q < 1 + wl.len() {
                    assert(spec_newick(t)[q] == wl[q - 1]);
                    assert(wl[q - 1] == s.subrange(i + 1, jl)[q - 1]);
                } else if q == 1 + wl.len() {
                    assert(spec_newick(t)[q] == ',');
                } else if q < 2 + wl.len() + wr.len() {
                    assert(spec_newick(t)[q] == wr[q - 2 - wl.len()]);
                    assert(wr[q - 2 - wl.len()] == s.subrange(jl + 1, jr)[q - 2 - wl.len()]);
                } else {
                    assert(q == 2 + wl.len() + wr.len());
                    assert(spec_newick(t)[q] == ')');
                }
            }
        }
    } else {
        let e = digit_run_end(s, i);
        lemma_digit_run_end_props(s, i);
        lemma_num_val_nonneg(s, i, e);
        let n = num_val(s, i, e);
        assert(spec_parse_num(s, i) == Some((n as u64, e)));
        assert(t == MergeTree::Leaf(n as u64));
        assert(j == e);
        assert(e == i + 1 || s[i] != '0');
        crate::ids::lemma_canonical_digits_render(s, i, e);
        assert(spec_dec(n) =~= s.subrange(i, e));
        assert(spec_newick(t) == spec_dec(n));
    }
}

/// Serializing and deserializing are inverse: every tree's serialized line
/// parses back to the identical tree, so the canonical id set and the shapes
/// of a persisted forest survive the round trip.
pub proof fn lemma_newick_round_trip(t: MergeTree)
    ensures
        spec_parse_line(spec_newick_line(t)) == Some(t),
{
    let s = spec_newick_line(t);
    let w = spec_newick(t);
    assert(s == w + seq![';']);
    assert forall|k: int| 0 <= k < w.len() implies s[0 + k] == #[trigger] w[k] by {
        assert(s[k] == (w + seq![';'])[k]);
    }
    assert(s[w.len() as int] == ';');
    assert(!is_digit_char(';'));
    lemma_parse_of_newick(t, s, 0);
}

/// The other direction: whatever line parses, parses to a tree whose
/// serialized line is that very input.
pub proof fn lemma_newick_line_sound(s: Seq<char>, t: MergeTree)
    requires
        spec_parse_line(s) == Some(t),
    ensures
        spec_newick_line(t) =~= s,
{
    let (t0, j) = spec_parse_tree(s, 0)->Some_0;
    lemma_parse_tree_sound(s, 0, t0, j);
    assert(spec_newick(t) =~= s.subrange(0, j));
    assert(s[j] == ';');
    assert(spec_newick_line(t) =~= s);
}

/// Reads one tree starting at `i`; the exec counterpart of
/// `spec_parse_tree`.
fn parse_tree_chars(v: &Vec<char>, i: usize) -> (r: Option<(MergeTree, usize)>)
    requires
        i <= v@.len(),
    ensures
        match r {
            Some((t, j)) => {
                &&& spec_parse_tree(v@, i as int) == Some((t, j as int))
                &&& i < j <= v@.len()
            },
            None => spec_parse_tree(v@, i as int) is None,
        },
    decreases v@.len() - i,
{
    if i >= v.len() {
        return None;
    }
    if v[i] == '(' {
        match parse_tree_chars(v, i + 1) {
            None => None,
            Some((l, j)) => {
                if j < v.len() && v[j] == ',' {
                    match parse_tree_chars(v, j + 1) {
                        None => None,
                        Some((r, k)) => {
                            if k < v.len() && v[k] == ')' {
                                Some((MergeTree::Node(Box::new(l), Box::new(r)), k + 1))
                            } else {
                                None
                            }
                        },
                    }
                } else {
                    None
                }
            },
        }
    } else {
        match parse_num(v, i) {
            None => None,
            Some((value, j)) => {
                if j > i + 1 && v[i] == '0' {
                    None
                } else {
                    Some((MergeTree::Leaf(value), j))
                }
            },
        }
    }
}

/// Reads a whole serialized tree line; the exec counterpart of
/// `spec_parse_line`.
pub fn parse_newick_line(s: &str) -> (r: Option<MergeTree>)
    ensures
        r == spec_parse_line(s@),
{
    let chars = str_to_chars(s);
    match parse_tree_chars(&chars, 0) {
        None => None,
        Some((t, j)) => {
            if j < chars.len() && j + 1 == chars.len() && chars[j] == ';' {
                Some(t)
            } else {
                None
            }
        },
    }
}

} // verus!
