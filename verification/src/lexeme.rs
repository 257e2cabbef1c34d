//! Character classes of the ASCII STL format: the whitespace that separates
//! words, and the syntax of a decimal number word.
use vstd::prelude::*;

verus! {

/// The characters that carry the Unicode `White_Space` property
/// (PropList.txt): the separators between the words of an ASCII STL file.
pub open spec fn is_white_space(c: char) -> bool {
    let u = c as u32;
    ||| 0x09 <= u <= 0x0d
    ||| u == 0x20
    ||| u == 0x85
    ||| u == 0xa0
    ||| u == 0x1680
    ||| 0x2000 <= u <= 0x200a
    ||| u == 0x2028
    ||| u == 0x2029
    ||| u == 0x202f
    ||| u == 0x205f
    ||| u == 0x3000
}

/// Whether `c` separates words.
pub fn is_whitespace(c: char) -> (b: bool)
    ensures
        b == is_white_space(c),
{
    let u = c as u32;
    (0x09 <= u && u <= 0x0d) || u == 0x20 || u == 0x85 || u == 0xa0 || u == 0x1680 || (0x2000 <= u
        && u <= 0x200a) || u == 0x2028 || u == 0x2029 || u == 0x202f || u == 0x205f || u == 0x3000
}

pub open spec fn is_digit(c: char) -> bool {
    0x30 <= (c as u32) <= 0x39
}

pub open spec fn is_sign(c: char) -> bool {
    c == '+' || c == '-'
}

/// The end of the run of decimal digits that starts at `i`.
pub open spec fn digit_run(s: Seq<char>, i: int) -> int
    decreases s.len() - i,
{
    if 0 <= i < s.len() && is_digit(s[i]) {
        digit_run(s, i + 1)
    } else {
        i
    }
}

/// Length of an optional leading sign.
pub open spec fn sign_len(s: Seq<char>) -> int {
    if s.len() > 0 && is_sign(s[0]) {
        1
    } else {
        0
    }
}

/// `c` is `l` once an upper-case ASCII letter is lowered.
pub open spec fn lowers_to(c: char, l: char) -> bool {
    ||| c == l
    ||| 0x41 <= (c as u32) <= 0x5a && (c as u32) + 0x20 == (l as u32)
}

/// `s` equals the lower-case ASCII word `lit` once its ASCII letters are lowered.
pub open spec fn eq_ignore_ascii_case(s: Seq<char>, lit: Seq<char>) -> bool {
    &&& s.len() == lit.len()
    &&& forall|i: int| 0 <= i < s.len() ==> lowers_to(#[trigger] s[i], lit[i])
}

/// `e` is empty or an exponent: `e` or `E`, an optional sign, one digit or more.
pub open spec fn is_exponent(e: Seq<char>) -> bool {
    ||| e.len() == 0
    ||| {
        &&& (e[0] == 'e' || e[0] == 'E')
        &&& {
            let j = 1 + sign_len(e.skip(1));
            &&& j < e.len()
            &&& digit_run(e, j) == e.len()
        }
    }
}

/// Digits, an optional fraction, an optional exponent, with at least one
/// digit before the exponent: `Digit+`, `Digit+ '.' Digit*` or `Digit* '.' Digit+`,
/// then `Exp?`.
pub open spec fn is_decimal(b: Seq<char>) -> bool {
    let i = digit_run(b, 0);
    let has_dot = i < b.len() && b[i] == '.';
    let frac_end = if has_dot {
        digit_run(b, i + 1)
    } else {
        i
    };
    let n_digits = if has_dot {
        i + (frac_end - (i + 1))
    } else {
        i
    };
    &&& n_digits > 0
    &&& is_exponent(b.skip(frac_end))
}

/// The words that `str::parse::<f32>` accepts, as its documentation gives them:
/// `Sign? ( 'inf' | 'infinity' | 'nan' | Number )`, compared after ASCII lower-casing.
pub open spec fn is_float_literal(s: Seq<char>) -> bool {
    let body = s.skip(sign_len(s));
    ||| eq_ignore_ascii_case(body, seq!['i', 'n', 'f'])
    ||| eq_ignore_ascii_case(body, seq!['i', 'n', 'f', 'i', 'n', 'i', 't', 'y'])
    ||| eq_ignore_ascii_case(body, seq!['n', 'a', 'n'])
    ||| is_decimal(body)
}

fn is_digit_char(c: char) -> (b: bool)
    ensures
        b == is_digit(c),
{
    let u = c as u32;
    0x30 <= u && u <= 0x39
}

fn is_sign_char(c: char) -> (b: bool)
    ensures
        b == is_sign(c),
{
    c == '+' || c == '-'
}

/// The end of the run of digits of `s` that starts at `i`.
fn exec_digit_run(s: &[char], i: usize) -> (r: usize)
    requires
        i <= s@.len(),
    ensures
        r == digit_run(s@, i as int),
        i <= r <= s@.len(),
{
    let mut j = i;
    while j < s.len() && is_digit_char(s[j])
        invariant
            i <= j <= s@.len(),
            digit_run(s@, i as int) == digit_run(s@, j as int),
        decreases s@.len() - j,
    {
        j = j + 1;
    }
    j
}

fn lowers_to_char(c: char, l: char) -> (b: bool)
    ensures
        b == lowers_to(c, l),
{
    let u = c as u32;
    c == l || (0x41 <= u && u <= 0x5a && u + 0x20 == l as u32)
}

/// Whether `s[start..]` equals `lit` up to the case of ASCII letters.
fn eq_ignore_case_from(s: &[char], start: usize, lit: &[char]) -> (b: bool)
    requires
        start <= s@.len(),
    ensures
        b == eq_ignore_ascii_case(s@.skip(start as int), lit@),
{
    if s.len() - start != lit.len() {
        return false;
    }
    let n = s.len();
    let mut k: usize = 0;
    while k < lit.len()
        invariant
            n == s@.len(),
            start <= s@.len(),
            start + lit@.len() == s@.len(),
            k <= lit@.len(),
            forall|i: int| 0 <= i < k ==> lowers_to(#[trigger] s@.skip(start as int)[i], lit@[i]),
        decreases lit@.len() - k,
    {
        if !lowers_to_char(s[start + k], lit[k]) {
            assert(s@.skip(start as int)[k as int] == s@[start + k]);
            return false;
        }
        k = k + 1;
    }
    true
}

proof fn lemma_digit_run_shift(s: Seq<char>, k: int, i: int)
    requires
        0 <= k <= s.len(),
        0 <= i,
    ensures
        digit_run(s.skip(k), i) == digit_run(s, i + k) - k,
    decreases s.len() - k - i,
{
    if 0 <= i < s.skip(k).len() && is_digit(s.skip(k)[i]) {
        lemma_digit_run_shift(s, k, i + 1);
    }
}

/// Whether `w[k..]` is empty or an exponent.
fn exponent_at(w: &[char], k: usize) -> (b: bool)
    requires
        k <= w@.len(),
    ensures
        b == is_exponent(w@.skip(k as int)),
{
    let n = w.len();
    let ghost e = w@.skip(k as int);
    if k == n {
        return true;
    }
    if !(w[k] == 'e' || w[k] == 'E') {
        return false;
    }
    let j: usize = if k + 1 < n && is_sign_char(w[k + 1]) {
        k + 2
    } else {
        k + 1
    };
    assert(e.skip(1) =~= w@.skip(k + 1));
    if j >= n {
        return false;
    }
    let r = exec_digit_run(w, j);
    proof {
        lemma_digit_run_shift(w@, k as int, (j - k) as int);
    }
    r == n
}

/// Whether `w[s..]` is a decimal number.
fn decimal_at(w: &[char], s: usize) -> (b: bool)
    requires
        s <= w@.len(),
    ensures
        b == is_decimal(w@.skip(s as int)),
{
    let n = w.len();
    let ghost body = w@.skip(s as int);
    let i = exec_digit_run(w, s);
    proof {
        lemma_digit_run_shift(w@, s as int, 0);
    }
    let has_dot = i < n && w[i] == '.';
    let frac_end = if has_dot {
        exec_digit_run(w, i + 1)
    } else {
        i
    };
    proof {
        if has_dot {
            lemma_digit_run_shift(w@, s as int, (i + 1 - s) as int);
        }
    }
    let n_digits = if has_dot {
        (i - s) + (frac_end - (i + 1))
    } else {
        i - s
    };
    if n_digits == 0 {
        return false;
    }
    assert(body.skip(frac_end - s) =~= w@.skip(frac_end as int));
    exponent_at(w, frac_end)
}

/// Whether the word `w` is a number word of the format: what `str::parse::<f32>`
/// accepts.
pub fn is_float_word(w: &[char]) -> (b: bool)
    ensures
        b == is_float_literal(w@),
{
    let n = w.len();
    let s: usize = if n > 0 && is_sign_char(w[0]) { 1 } else { 0 };
    eq_ignore_case_from(w, s, &['i', 'n', 'f']) || eq_ignore_case_from(
        w,
        s,
        &['i', 'n', 'f', 'i', 'n', 'i', 't', 'y'],
    ) || eq_ignore_case_from(w, s, &['n', 'a', 'n']) || decimal_at(w, s)
}

} // verus!
