//! Decimal notation for transcript indices: the canonical digit string of a
//! number, its rendering into a `String`, and parsing of digit runs out of a
//! character sequence.

use vstd::prelude::*;

verus! {

/// The digit character for a value below ten.
pub open spec fn digit_char(d: int) -> char {
    if d == 0 { '0' }
    else if d == 1 { '1' }
    else if d == 2 { '2' }
    else if d == 3 { '3' }
    else if d == 4 { '4' }
    else if d == 5 { '5' }
    else if d == 6 { '6' }
    else if d == 7 { '7' }
    else if d == 8 { '8' }
    else { '9' }
}

/// Whether a character is a decimal digit.
pub open spec fn is_digit_char(c: char) -> bool {
    c == '0' || c == '1' || c == '2' || c == '3' || c == '4' || c == '5' || c == '6' || c == '7'
        || c == '8' || c == '9'
}

/// The value of a decimal digit character.
pub open spec fn digit_val(c: char) -> int {
    if c == '0' { 0 }
    else if c == '1' { 1 }
    else if c == '2' { 2 }
    else if c == '3' { 3 }
    else if c == '4' { 4 }
    else if c == '5' { 5 }
    else if c == '6' { 6 }
    else if c == '7' { 7 }
    else if c == '8' { 8 }
    else { 9 }
}

/// The canonical decimal notation of a nonnegative number: no sign, no
/// leading zero except for the number zero itself.
pub open spec fn spec_dec(n: int) -> Seq<char>
    recommends
        n >= 0,
    decreases n,
{
    if n < 10 {
        seq![digit_char(n)]
    } else {
        spec_dec(n / 10).push(digit_char(n % 10))
    }
}

/// Every character of a canonical decimal notation is a digit, the notation
/// is nonempty, and its leading character is `'0'` only for the number zero.
pub proof fn lemma_dec_shape(n: int)
    requires
        n >= 0,
    ensures
        spec_dec(n).len() >= 1,
        forall|i: int| 0 <= i < spec_dec(n).len() ==> is_digit_char(#[trigger] spec_dec(n)[i]),
        spec_dec(n)[0] == '0' ==> n == 0,
    decreases n,
{
    if n >= 10 {
        lemma_dec_shape(n / 10);
    }
}

/// The value of the digit run `s[i..j]`, read most significant first.
pub open spec fn num_val(s: Seq<char>, i: int, j: int) -> int
    recommends
        0 <= i <= j <= s.len(),
    decreases j - i,
{
    if j <= i {
        0
    } else {
        num_val(s, i, j - 1) * 10 + digit_val(s[j - 1])
    }
}

/// The first position at or after `i` that does not hold a digit.
pub open spec fn digit_run_end(s: Seq<char>, i: int) -> int
    recommends
        0 <= i <= s.len(),
    decreases s.len() - i,
{
    if i < s.len() && is_digit_char(s[i]) {
        digit_run_end(s, i + 1)
    } else {
        i
    }
}

/// Reading back the canonical decimal notation of `n` yields `n`.
pub proof fn lemma_dec_val(n: int)
    requires
        n >= 0,
    ensures
        num_val(spec_dec(n), 0, spec_dec(n).len() as int) == n,
    decreases n,
{
    if n < 10 {
        let s = spec_dec(n);
        assert(s == seq![digit_char(n)]);
        assert(num_val(s, 0, 1) == num_val(s, 0, 0) * 10 + digit_val(s[0]));
        assert(digit_val(digit_char(n)) == n);
    } else {
        lemma_dec_val(n / 10);
        let s = spec_dec(n);
        let p = spec_dec(n / 10);
        assert(s == p.push(digit_char(n % 10)));
        lemma_num_val_same_prefix(p, s, 0, p.len() as int);
        assert(num_val(s, 0, s.len() as int)
            == num_val(s, 0, p.len() as int) * 10 + digit_val(s[p.len() as int]));
    }
}

/// The value of a digit run depends only on the characters inside it.
pub proof fn lemma_num_val_same_prefix(a: Seq<char>, b: Seq<char>, i: int, j: int)
    requires
        0 <= i <= j,
        j <= a.len(),
        j <= b.len(),
        forall|k: int| i <= k < j ==> a[k] == b[k],
    ensures
        num_val(a, i, j) == num_val(b, i, j),
    decreases j - i,
{
    if j > i {
        lemma_num_val_same_prefix(a, b, i, j - 1);
    }
}

/// The digit string of a value below ten.
pub fn digit_str(d: u64) -> (s: &'static str)
    requires
        d < 10,
    ensures
        s@ == seq![digit_char(d as int)],
{
    proof {
        reveal_strlit("0");
        reveal_strlit("1");
        reveal_strlit("2");
        reveal_strlit("3");
        reveal_strlit("4");
        reveal_strlit("5");
        reveal_strlit("6");
        reveal_strlit("7");
        reveal_strlit("8");
        reveal_strlit("9");
    }
    if d == 0 { "0" }
    else if d == 1 { "1" }
    else if d == 2 { "2" }
    else if d == 3 { "3" }
    else if d == 4 { "4" }
    else if d == 5 { "5" }
    else if d == 6 { "6" }
    else if d == 7 { "7" }
    else if d == 8 { "8" }
    else { "9" }
}

/// Renders a number in canonical decimal notation.
pub fn u64_to_string(n: u64) -> (s: String)
    ensures
        s@ == spec_dec(n as int),
    decreases n,
{
    if n < 10 {
        let s: String = String::from_str(digit_str(n));
        s
    } else {
        let mut s = u64_to_string(n / 10);
        s.append(digit_str(n % 10));
        s
    }
}

/// The exec counterpart of `digit_val`.
pub fn char_digit_val(c: char) -> (d: u64)
    requires
        is_digit_char(c),
    ensures
        d as int == digit_val(c),
{
    if c == '0' { 0 }
    else if c == '1' { 1 }
    else if c == '2' { 2 }
    else if c == '3' { 3 }
    else if c == '4' { 4 }
    else if c == '5' { 5 }
    else if c == '6' { 6 }
    else if c == '7' { 7 }
    else if c == '8' { 8 }
    else { 9 }
}

/// The exec counterpart of `is_digit_char`.
pub fn char_is_digit(c: char) -> (b: bool)
    ensures
        b == is_digit_char(c),
{
    c == '0' || c == '1' || c == '2' || c == '3' || c == '4' || c == '5' || c == '6' || c == '7'
        || c == '8' || c == '9'
}

/// Copies the characters of a string into a vector.
pub fn str_to_chars(s: &str) -> (v: Vec<char>)
    ensures
        v@ == s@,
{
    let n = s.unicode_len();
    let mut v: Vec<char> = Vec::new();
    let mut i: usize = 0;
    while i < n
        invariant
            i <= n,
            n == s@.len(),
            v@ == s@.subrange(0, i as int),
        decreases n - i,
    {
        let c = s.get_char(i);
        v.push(c);
        proof {
            assert(v@ =~= s@.subrange(0, i + 1 as int));
        }
        i += 1;
    }
    proof {
        assert(v@ =~= s@);
    }
    v
}

/// Parses the digit run starting at `i`; `None` when there is no digit at `i`
/// or the run's value does not fit.  On success returns the value and the
/// position one past the run.
pub open spec fn spec_parse_num(s: Seq<char>, i: int) -> Option<(u64, int)> {
    let j = digit_run_end(s, i);
    if j == i || num_val(s, i, j) > u64::MAX {
        None
    } else {
        Some((num_val(s, i, j) as u64, j))
    }
}

/// The value of a digit run grows with its length.
proof fn lemma_num_val_mono(s: Seq<char>, i: int, j: int, k: int)
    requires
        0 <= i <= j <= k <= s.len(),
        forall|q: int| i <= q < k ==> is_digit_char(#[trigger] s[q]),
    ensures
        num_val(s, i, j) <= num_val(s, i, k),
        num_val(s, i, j) >= 0,
    decreases k - j,
{
    if j == k {
        lemma_num_val_nonneg(s, i, j);
    } else {
        lemma_num_val_mono(s, i, j, k - 1);
        lemma_num_val_nonneg(s, i, k - 1);
    }
}

/// A digit run's value is nonnegative.
pub proof fn lemma_num_val_nonneg(s: Seq<char>, i: int, j: int)
    requires
        0 <= i <= j <= s.len(),
    ensures
        num_val(s, i, j) >= 0,
    decreases j - i,
{
    if j > i {
        lemma_num_val_nonneg(s, i, j - 1);
    }
}

/// Reads the digit run starting at `i`, the exec counterpart of
/// `spec_parse_num`.
pub fn parse_num(v: &Vec<char>, i: usize) -> (r: Option<(u64, usize)>)
    requires
        i <= v@.len(),
    ensures
        match r {
            Some((value, j)) => {
                &&& spec_parse_num(v@, i as int) == Some((value, j as int))
                &&& i < j <= v@.len()
            },
            None => spec_parse_num(v@, i as int) is None,
        },
{
    let ghost e = digit_run_end(v@, i as int);
    proof {
        lemma_digit_run_end_props(v@, i as int);
    }
    if i == v.len() || !char_is_digit(v[i]) {
        return None;
    }
    let mut j: usize = i;
    let mut acc: u64 = 0;
    let mut overflow = false;
    while j < v.len() && char_is_digit(v[j])
        invariant
            i <= j <= v@.len(),
            e == digit_run_end(v@, i as int),
            i <= e <= v@.len(),
            forall|k: int| i <= k < e ==> is_digit_char(#[trigger] v@[k]),
            j <= e,
            e < v@.len() ==> !is_digit_char(v@[e as int]),
            j < e ==> is_digit_char(v@[j as int]),
            !overflow ==> acc as int == num_val(v@, i as int, j as int),
            overflow ==> num_val(v@, i as int, j as int) > u64::MAX,
        decreases v@.len() - j,
    {
        proof {
            if j as int == e {
                assert(!is_digit_char(v@[j as int]));
            }
        }
        let d = char_digit_val(v[j]);
        if !overflow {
            if acc > (u64::MAX - d) / 10 {
                overflow = true;
                proof {
                    lemma_overflow_step(acc as int, d as int);
                }
            } else {
                acc = acc * 10 + d;
            }
        } else {
            proof {
                lemma_num_val_nonneg(v@, i as int, j as int);
                assert(num_val(v@, i as int, j + 1 as int)
                    == num_val(v@, i as int, j as int) * 10 + digit_val(v@[j as int]));
            }
        }
        j += 1;
    }
    proof {
        assert(j as int == e);
    }
    if overflow {
        None
    } else {
        Some((acc, j))
    }
}

/// When the accumulated value would exceed the limit, so does the run value.
proof fn lemma_overflow_step(acc: int, d: int)
    requires
        0 <= acc <= u64::MAX,
        0 <= d < 10,
        acc > (u64::MAX - d) / 10,
    ensures
        acc * 10 + d > u64::MAX,
{
    let m = u64::MAX as int;
    assert(acc >= (m - d) / 10 + 1);
    assert(((m - d) / 10 + 1) * 10 + d > m) by (nonlinear_arith)
        requires
            0 <= d < 10,
            m == u64::MAX as int,
        ;
    assert(acc * 10 >= ((m - d) / 10 + 1) * 10) by (nonlinear_arith)
        requires
            acc >= (m - d) / 10 + 1,
        ;
}

/// Basic bounds on where a digit run ends.
pub proof fn lemma_digit_run_end_props(s: Seq<char>, i: int)
    requires
        0 <= i <= s.len(),
    ensures
        i <= digit_run_end(s, i) <= s.len(),
        forall|k: int| i <= k < digit_run_end(s, i) ==> is_digit_char(#[trigger] s[k]),
        digit_run_end(s, i) < s.len() ==> !is_digit_char(s[digit_run_end(s, i)]),
    decreases s.len() - i,
{
    if i < s.len() && is_digit_char(s[i]) {
        lemma_digit_run_end_props(s, i + 1);
    }
}

/// Parsing right after rendering: the canonical notation of `n`, followed by
/// anything that does not begin with a digit, parses back to `n`.
pub proof fn lemma_parse_num_of_dec(n: u64, s: Seq<char>, i: int)
    requires
        0 <= i,
        i + spec_dec(n as int).len() <= s.len(),
        forall|k: int| 0 <= k < spec_dec(n as int).len()
            ==> s[i + k] == #[trigger] spec_dec(n as int)[k],
        i + spec_dec(n as int).len() < s.len()
            ==> !is_digit_char(s[i + spec_dec(n as int).len()]),
    ensures
        spec_parse_num(s, i) == Some((n, i + spec_dec(n as int).len())),
{
    let d = spec_dec(n as int);
    let e = i + d.len();
    lemma_dec_shape(n as int);
    assert forall|k: int| i <= k < e implies is_digit_char(#[trigger] s[k]) by {
        assert(s[k] == d[k - i]);
        assert(is_digit_char(d[k - i]));
    }
    lemma_digit_run_end_shifted(s, i, e);
    assert(digit_run_end(s, i) == e);
    lemma_dec_val(n as int);
    lemma_num_val_shifted(d, s, i, 0, d.len() as int);
    assert(num_val(s, i, e) == n as int);
}

/// A digit run bounded on the right ends exactly at its bound.
proof fn lemma_digit_run_end_shifted(s: Seq<char>, i: int, e: int)
    requires
        0 <= i <= e <= s.len(),
        forall|k: int| i <= k < e ==> is_digit_char(#[trigger] s[k]),
        e < s.len() ==> !is_digit_char(s[e]),
    ensures
        digit_run_end(s, i) == e,
    decreases e - i,
{
    if i < e {
        lemma_digit_run_end_shifted(s, i + 1, e);
    }
}

/// The value of a digit run is unchanged by shifting it inside a larger
/// sequence.
proof fn lemma_num_val_shifted(a: Seq<char>, b: Seq<char>, off: int, i: int, j: int)
    requires
        0 <= i <= j <= a.len(),
        0 <= off,
        off + j <= b.len(),
        forall|k: int| i <= k < j ==> b[off + k] == #[trigger] a[k],
    ensures
        num_val(b, off + i, off + j) == num_val(a, i, j),
    decreases j - i,
{
    if j > i {
        lemma_num_val_shifted(a, b, off, i, j - 1);
    }
}

} // verus!
