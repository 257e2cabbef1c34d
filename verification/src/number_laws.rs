//! Which words are numbers: every decimal word, and nothing but the
//! characters of numbers.
use vstd::prelude::*;
use crate::lexeme::{
    digit_run, eq_ignore_ascii_case, is_decimal, is_digit, is_exponent, is_float_literal,
    is_sign, lowers_to, sign_len,
};

verus! {

/// Every character of `d` is a decimal digit.
pub open spec fn all_digits(d: Seq<char>) -> bool {
    forall|k: int| 0 <= k < d.len() ==> is_digit(#[trigger] d[k])
}

/// An optional sign: empty, `+` or `-`.
pub open spec fn opt_sign(s: Seq<char>) -> bool {
    s.len() == 0 || (s.len() == 1 && is_sign(s[0]))
}

proof fn lemma_digit_run_exact(b: Seq<char>, i: int, e: int)
    requires
        0 <= i <= e <= b.len(),
        forall|k: int| i <= k < e ==> is_digit(#[trigger] b[k]),
        e == b.len() || !is_digit(b[e]),
    ensures
        digit_run(b, i) == e,
    decreases e - i,
{
    if i < e {
        lemma_digit_run_exact(b, i + 1, e);
    }
}

/// The optional fraction `. f`.
pub open spec fn fraction_part(dot: bool, f: Seq<char>) -> Seq<char> {
    if dot {
        seq!['.'] + f
    } else {
        Seq::empty()
    }
}

/// The optional exponent `m esign x`, present where `x` is not empty.
pub open spec fn exponent_part(m: char, esign: Seq<char>, x: Seq<char>) -> Seq<char> {
    if x.len() > 0 {
        seq![m] + esign + x
    } else {
        Seq::empty()
    }
}

proof fn lemma_exponent_part(m: char, esign: Seq<char>, x: Seq<char>)
    requires
        m == 'e' || m == 'E',
        opt_sign(esign),
        all_digits(x),
    ensures
        is_exponent(exponent_part(m, esign, x)),
{
    let e = exponent_part(m, esign, x);
    if x.len() > 0 {
        assert(e[0] == m);
        assert(e.skip(1) =~= esign + x);
        if esign.len() == 0 {
            assert((esign + x)[0] == x[0]);
            assert(is_digit(x[0]));
        }
        let j: int = 1 + esign.len() as int;
        assert(sign_len(e.skip(1)) == esign.len());
        assert forall|k: int| j <= k < e.len() implies is_digit(#[trigger] e[k]) by {
            assert(e[k] == x[k - j]);
        }
        lemma_digit_run_exact(e, j, e.len() as int);
    }
}

proof fn lemma_decimal_body(d: Seq<char>, dot: bool, f: Seq<char>, m: char, esign: Seq<char>, x: Seq<char>)
    requires
        all_digits(d),
        all_digits(f),
        !dot ==> f.len() == 0,
        d.len() + f.len() > 0,
        m == 'e' || m == 'E',
        opt_sign(esign),
        all_digits(x),
    ensures
        is_decimal(d + fraction_part(dot, f) + exponent_part(m, esign, x)),
{
    let dp = fraction_part(dot, f);
    let ep = exponent_part(m, esign, x);
    let body = d + dp + ep;
    let i = d.len() as int;
    assert forall|k: int| 0 <= k < i implies is_digit(#[trigger] body[k]) by {
        assert(body[k] == d[k]);
    }
    if i < body.len() {
        if dot {
            assert(body[i] == '.');
        } else {
            assert(body[i] == ep[0]);
        }
    }
    lemma_digit_run_exact(body, 0, i);
    let frac_end = if dot {
        i + 1 + f.len()
    } else {
        i
    };
    if dot {
        assert(body[i] == '.');
        assert forall|k: int| i + 1 <= k < frac_end implies is_digit(#[trigger] body[k]) by {
            assert(body[k] == f[k - i - 1]);
        }
        if frac_end < body.len() {
            assert(body[frac_end] == ep[0]);
        }
        lemma_digit_run_exact(body, i + 1, frac_end);
    }
    assert(body.skip(frac_end) =~= ep);
    lemma_exponent_part(m, esign, x);
}

/// Every decimal word is a number, however many digits it has: digits with
/// an optional fraction (`12`, `12.`, `12.5`, `.5`, at least one digit in
/// all), an optional sign before, an optional exponent after.
pub proof fn law_decimal_words_are_numbers(
    sign: Seq<char>,
    d: Seq<char>,
    dot: bool,
    f: Seq<char>,
    m: char,
    esign: Seq<char>,
    x: Seq<char>,
)
    requires
        opt_sign(sign),
        all_digits(d),
        all_digits(f),
        !dot ==> f.len() == 0,
        d.len() + f.len() > 0,
        m == 'e' || m == 'E',
        opt_sign(esign),
        all_digits(x),
    ensures
        is_float_literal(sign + d + fraction_part(dot, f) + exponent_part(m, esign, x)),
{
    let body = d + fraction_part(dot, f) + exponent_part(m, esign, x);
    let w = sign + d + fraction_part(dot, f) + exponent_part(m, esign, x);
    assert(w =~= sign + body);
    lemma_decimal_body(d, dot, f, m, esign, x);
    if sign.len() == 0 {
        if d.len() > 0 {
            assert(body[0] == d[0]);
        } else {
            assert(body[0] == '.');
        }
        assert(sign_len(w) == 0);
        assert(w.skip(0) =~= body);
    } else {
        assert(sign_len(w) == 1);
        assert(w.skip(1) =~= body);
    }
}

/// The characters of number words: digits, signs, the point, `e`/`E`, and
/// the letters of `inf`, `infinity` and `nan` in either case.
pub open spec fn number_char(c: char) -> bool {
    let u = c as u32;
    ||| is_digit(c)
    ||| is_sign(c)
    ||| c == '.'
    ||| c == 'e' || c == 'E'
    ||| u == 0x69 || u == 0x6e || u == 0x66 || u == 0x74 || u == 0x79 || u == 0x61
    ||| u == 0x49 || u == 0x4e || u == 0x46 || u == 0x54 || u == 0x59 || u == 0x41
}

/// The lower-case letters of `inf`, `infinity` and `nan`.
pub open spec fn lower_letter(c: char) -> bool {
    let u = c as u32;
    u == 0x69 || u == 0x6e || u == 0x66 || u == 0x74 || u == 0x79 || u == 0x61
}

proof fn lemma_digit_run_digits(b: Seq<char>, i: int)
    requires
        0 <= i <= b.len(),
    ensures
        i <= digit_run(b, i) <= b.len(),
        forall|k: int| i <= k < digit_run(b, i) ==> is_digit(#[trigger] b[k]),
    decreases b.len() - i,
{
    if i < b.len() && is_digit(b[i]) {
        lemma_digit_run_digits(b, i + 1);
    }
}

proof fn lemma_word_letters(body: Seq<char>, lit: Seq<char>)
    requires
        eq_ignore_ascii_case(body, lit),
        forall|k: int| 0 <= k < lit.len() ==> lower_letter(#[trigger] lit[k]),
    ensures
        forall|k: int| 0 <= k < body.len() ==> number_char(#[trigger] body[k]),
{
    assert forall|k: int| 0 <= k < body.len() implies number_char(#[trigger] body[k]) by {
        assert(lowers_to(body[k], lit[k]));
        assert(lower_letter(lit[k]));
    }
}

/// A number word holds nothing but the characters of numbers.
pub proof fn law_numbers_hold_number_chars(w: Seq<char>)
    requires
        is_float_literal(w),
    ensures
        forall|k: int| 0 <= k < w.len() ==> number_char(#[trigger] w[k]),
{
    let s = sign_len(w);
    let body = w.skip(s);
    let inf = seq!['i', 'n', 'f'];
    let infinity = seq!['i', 'n', 'f', 'i', 'n', 'i', 't', 'y'];
    let nan = seq!['n', 'a', 'n'];
    if eq_ignore_ascii_case(body, inf) {
        lemma_word_letters(body, inf);
    } else if eq_ignore_ascii_case(body, infinity) {
        lemma_word_letters(body, infinity);
    } else if eq_ignore_ascii_case(body, nan) {
        lemma_word_letters(body, nan);
    } else {
        assert(is_decimal(body));
        let i = digit_run(body, 0);
        lemma_digit_run_digits(body, 0);
        let has_dot = i < body.len() && body[i] == '.';
        let frac_end = if has_dot {
            digit_run(body, i + 1)
        } else {
            i
        };
        if has_dot {
            lemma_digit_run_digits(body, i + 1);
        }
        let e = body.skip(frac_end);
        assert(is_exponent(e));
        if e.len() > 0 {
            let j = 1 + sign_len(e.skip(1));
            lemma_digit_run_digits(e, j);
            assert forall|k: int| 0 <= k < e.len() implies number_char(#[trigger] e[k]) by {
                if k == 0 {
                } else if k < j {
                    assert(e[k] == e.skip(1)[0]);
                } else {
                }
            }
        }
        assert forall|k: int| 0 <= k < body.len() implies number_char(#[trigger] body[k]) by {
            if k < i {
            } else if k == i && has_dot {
            } else if k < frac_end {
            } else {
                assert(body[k] == e[k - frac_end]);
            }
        }
    }
    assert forall|k: int| 0 <= k < w.len() implies number_char(#[trigger] w[k]) by {
        if k < s {
            assert(is_sign(w[0]));
        } else {
            assert(w[k] == body[k - s]);
        }
    }
}

/// `lit` with the letters at the positions `up` picks in upper case.
pub open spec fn cased(lit: Seq<char>, up: spec_fn(int) -> bool) -> Seq<char> {
    Seq::new(lit.len(), |i: int| if up(i) { ((lit[i] as u32) - 0x20) as char } else { lit[i] })
}

/// `inf`, `infinity` and `nan` are numbers in any mix of cases, with an
/// optional sign.
pub proof fn law_named_numbers(sign: Seq<char>, lit: Seq<char>, up: spec_fn(int) -> bool)
    requires
        opt_sign(sign),
        lit == seq!['i', 'n', 'f'] || lit == seq!['i', 'n', 'f', 'i', 'n', 'i', 't', 'y'] || lit
            == seq!['n', 'a', 'n'],
    ensures
        is_float_literal(sign + cased(lit, up)),
{
    let body = cased(lit, up);
    let w = sign + body;
    assert forall|i: int| 0 <= i < lit.len() implies lower_letter(#[trigger] lit[i]) by {}
    assert forall|i: int| 0 <= i < body.len() implies lowers_to(#[trigger] body[i], lit[i]) by {
        if up(i) {
            let u = (lit[i] as u32) - 0x20;
            assert(0x41 <= u <= 0x5a);
            vstd::utf8::char_u32_cast(body[i], u as u32);
        }
    }
    assert(eq_ignore_ascii_case(body, lit));
    if sign.len() == 0 {
        assert(w =~= body);
        assert(w.skip(0) =~= body);
        assert(!is_sign(body[0]));
    } else {
        assert(w.skip(1) =~= body);
    }
}

/// `w` is the decimal word made of these parts.
pub open spec fn is_decimal_form(
    w: Seq<char>,
    sign: Seq<char>,
    d: Seq<char>,
    dot: bool,
    f: Seq<char>,
    m: char,
    esign: Seq<char>,
    x: Seq<char>,
) -> bool {
    &&& opt_sign(sign)
    &&& all_digits(d)
    &&& all_digits(f)
    &&& (!dot ==> f.len() == 0)
    &&& d.len() + f.len() > 0
    &&& (m == 'e' || m == 'E')
    &&& opt_sign(esign)
    &&& all_digits(x)
    &&& (x.len() == 0 ==> esign.len() == 0)
    &&& w == sign + d + fraction_part(dot, f) + exponent_part(m, esign, x)
}

/// `w` is `inf`, `infinity` or `nan` in some mix of cases, after a sign.
pub open spec fn is_named_form(w: Seq<char>, sign: Seq<char>, lit: Seq<char>, up: spec_fn(int) -> bool) -> bool {
    &&& opt_sign(sign)
    &&& (lit == seq!['i', 'n', 'f'] || lit == seq!['i', 'n', 'f', 'i', 'n', 'i', 't', 'y'] || lit
        == seq!['n', 'a', 'n'])
    &&& w == sign + cased(lit, up)
}

proof fn lemma_cased_back(body: Seq<char>, lit: Seq<char>)
    requires
        eq_ignore_ascii_case(body, lit),
        forall|i: int| 0 <= i < lit.len() ==> lower_letter(#[trigger] lit[i]),
    ensures
        body == cased(lit, |i: int| body[i] != lit[i]),
{
    let up = |i: int| body[i] != lit[i];
    let c = cased(lit, up);
    assert forall|i: int| 0 <= i < body.len() implies c[i] == body[i] by {
        assert(lowers_to(body[i], lit[i]));
        assert(lower_letter(lit[i]));
        if body[i] != lit[i] {
            let u = (lit[i] as u32) - 0x20;
            assert(body[i] as u32 == u);
            vstd::utf8::char_u32_cast(body[i], u as u32);
        }
    }
    assert(c =~= body);
}

proof fn exponent_parts(e: Seq<char>) -> (r: (char, Seq<char>, Seq<char>))
    requires
        is_exponent(e),
    ensures
        r.0 == 'e' || r.0 == 'E',
        opt_sign(r.1),
        all_digits(r.2),
        r.2.len() == 0 ==> r.1.len() == 0,
        exponent_part(r.0, r.1, r.2) == e,
{
    if e.len() == 0 {
        let x = Seq::<char>::empty();
        let es = Seq::<char>::empty();
        assert(exponent_part('e', es, x) =~= e);
        ('e', es, x)
    } else {
        let m = e[0];
        let j = 1 + sign_len(e.skip(1));
        let es = e.subrange(1, j);
        let x = e.skip(j);
        lemma_digit_run_digits(e, j);
        assert forall|k: int| 0 <= k < x.len() implies is_digit(#[trigger] x[k]) by {
            assert(x[k] == e[j + k]);
        }
        if j == 2 {
            assert(es[0] == e.skip(1)[0]);
        }
        assert(exponent_part(m, es, x) =~= e);
        (m, es, x)
    }
}

proof fn decimal_parts(body: Seq<char>) -> (r: (Seq<char>, bool, Seq<char>, char, Seq<char>, Seq<char>))
    requires
        is_decimal(body),
    ensures
        is_decimal_form(body, Seq::empty(), r.0, r.1, r.2, r.3, r.4, r.5),
{
    let i = digit_run(body, 0);
    lemma_digit_run_digits(body, 0);
    let dot = i < body.len() && body[i] == '.';
    let frac_end = if dot {
        digit_run(body, i + 1)
    } else {
        i
    };
    if dot {
        lemma_digit_run_digits(body, i + 1);
    }
    let d = body.take(i);
    let f = if dot {
        body.subrange(i + 1, frac_end)
    } else {
        Seq::<char>::empty()
    };
    let e = body.skip(frac_end);
    assert forall|k: int| 0 <= k < d.len() implies is_digit(#[trigger] d[k]) by {
        assert(d[k] == body[k]);
    }
    assert forall|k: int| 0 <= k < f.len() implies is_digit(#[trigger] f[k]) by {
        assert(f[k] == body[i + 1 + k]);
    }
    let (m, es, x) = exponent_parts(e);
    assert(body =~= Seq::<char>::empty() + d + fraction_part(dot, f) + exponent_part(m, es, x));
    (d, dot, f, m, es, x)
}

/// Conversely, every number is a decimal word or a named one: together with
/// the two laws above, the numbers are exactly these words.
pub proof fn law_numbers_are_decimal_or_named(w: Seq<char>)
    requires
        is_float_literal(w),
    ensures
        (exists|sign: Seq<char>, d: Seq<char>, dot: bool, f: Seq<char>, m: char, esign: Seq<char>, x: Seq<char>|
            #[trigger] is_decimal_form(w, sign, d, dot, f, m, esign, x)) || (exists|
            sign: Seq<char>,
            lit: Seq<char>,
            up: spec_fn(int) -> bool,
        |
            #[trigger] is_named_form(w, sign, lit, up)),
{
    let sl = sign_len(w);
    let sign = w.take(sl);
    let body = w.skip(sl);
    assert(w =~= sign + body);
    assert(opt_sign(sign));
    let inf = seq!['i', 'n', 'f'];
    let infinity = seq!['i', 'n', 'f', 'i', 'n', 'i', 't', 'y'];
    let nan = seq!['n', 'a', 'n'];
    if eq_ignore_ascii_case(body, inf) || eq_ignore_ascii_case(body, infinity) || eq_ignore_ascii_case(body, nan) {
        let lit = if eq_ignore_ascii_case(body, inf) {
            inf
        } else if eq_ignore_ascii_case(body, infinity) {
            infinity
        } else {
            nan
        };
        assert forall|i: int| 0 <= i < lit.len() implies lower_letter(#[trigger] lit[i]) by {}
        lemma_cased_back(body, lit);
        let up = |i: int| body[i] != lit[i];
        assert(is_named_form(w, sign, lit, up));
    } else {
        let (d, dot, f, m, es, x) = decimal_parts(body);
        assert(Seq::<char>::empty() + d =~= d);
        assert(w =~= sign + d + fraction_part(dot, f) + exponent_part(m, es, x));
        assert(is_decimal_form(w, sign, d, dot, f, m, es, x));
    }
}

} // verus!
