//! Cutting a `&str` by character positions: the byte offset of a character
//! position, and the slice between two of them.
use vstd::prelude::*;
use vstd::utf8::*;
use vstd::string::StringSliceAdditionalSpecFns;

verus! {

broadcast use vstd::utf8::group_utf8_lib;

/// The byte offset of character position `i` of `s`.
pub open spec fn byte_offset(s: Seq<char>, i: int) -> int {
    encode_utf8(s.take(i)).len() as int
}

pub proof fn lemma_encode_utf8_concat(a: Seq<char>, b: Seq<char>)
    ensures
        encode_utf8(a + b) == encode_utf8(a) + encode_utf8(b),
    decreases a.len(),
{
    if a.len() == 0 {
        assert(a + b =~= b);
        assert(encode_utf8(a) + encode_utf8(b) =~= encode_utf8(b));
    } else {
        assert((a + b).drop_first() =~= a.drop_first() + b);
        lemma_encode_utf8_concat(a.drop_first(), b);
        assert(encode_utf8(a + b) =~= encode_utf8(a) + encode_utf8(b));
    }
}

pub proof fn lemma_char_boundary_concat(a: Seq<char>, b: Seq<char>)
    ensures
        is_char_boundary(encode_utf8(a + b), encode_utf8(a).len() as int),
    decreases a.len(),
{
    let bytes = encode_utf8(a + b);
    if a.len() == 0 {
    } else {
        let ab = a + b;
        encode_utf8_first_scalar(ab);
        assert(pop_first_scalar(bytes) =~= encode_utf8(ab.drop_first()));
        assert(ab.drop_first() =~= a.drop_first() + b);
        assert(ab[0] == a[0]);
        lemma_char_boundary_concat(a.drop_first(), b);
        lemma_encode_utf8_concat(a.drop_first(), b);
    }
}

/// Positions split the encoding: the bytes before position `i` encode `s.take(i)`.
pub proof fn lemma_byte_offset_split(s: Seq<char>, i: int)
    requires
        0 <= i <= s.len(),
    ensures
        encode_utf8(s) == encode_utf8(s.take(i)) + encode_utf8(s.skip(i)),
        byte_offset(s, i) <= encode_utf8(s).len(),
        is_char_boundary(encode_utf8(s), byte_offset(s, i)),
{
    assert(s =~= s.take(i) + s.skip(i));
    lemma_encode_utf8_concat(s.take(i), s.skip(i));
    lemma_char_boundary_concat(s.take(i), s.skip(i));
}

/// One character more moves the byte offset by the width of its encoding.
pub proof fn lemma_byte_offset_step(s: Seq<char>, i: int)
    requires
        0 <= i < s.len(),
    ensures
        byte_offset(s, i + 1) == byte_offset(s, i) + encode_scalar(s[i] as u32).len(),
{
    assert(s.take(i + 1) =~= s.take(i) + seq![s[i]]);
    lemma_encode_utf8_concat(s.take(i), seq![s[i]]);
    assert(seq![s[i]].drop_first() =~= Seq::<char>::empty());
    reveal_with_fuel(encode_utf8, 2);
    assert(encode_utf8(seq![s[i]]) =~= encode_scalar(s[i] as u32));
}

/// The number of bytes that encode `c`.
pub fn utf8_width(c: char) -> (n: usize)
    ensures
        n == encode_scalar(c as u32).len(),
        1 <= n <= 4,
{
    let u = c as u32;
    if u <= 0x7f {
        1
    } else if u <= 0x7ff {
        2
    } else if u <= 0xffff {
        3
    } else {
        4
    }
}

/// The part of `content` between character positions `i0` and `i1`, found
/// from their byte offsets `b0` and `b1`.
pub fn substr<'a>(content: &'a str, b0: usize, b1: usize, Ghost(i0): Ghost<int>, Ghost(i1): Ghost<int>) -> (r: &'a str)
    requires
        0 <= i0 <= i1 <= content@.len(),
        b0 == byte_offset(content@, i0),
        b1 == byte_offset(content@, i1),
    ensures
        r@ == content@.subrange(i0, i1),
{
    let ghost s = content@;
    proof {
        lemma_byte_offset_split(s, i0);
        assert(content.spec_bytes() == encode_utf8(s));
    }
    let (_, rest) = content.split_at(b0);
    proof {
        assert(rest.spec_bytes() =~= encode_utf8(s.skip(i0)));
        assert(decode_utf8(encode_utf8(rest@)) == rest@);
        assert(decode_utf8(encode_utf8(s.skip(i0))) == s.skip(i0));
        assert(rest@ == s.skip(i0));
        let t = s.skip(i0);
        let j = i1 - i0;
        assert(s.take(i1) =~= s.take(i0) + t.take(j));
        lemma_encode_utf8_concat(s.take(i0), t.take(j));
        lemma_byte_offset_split(t, j);
        assert(rest.spec_bytes() == encode_utf8(t));
    }
    let (w, _) = rest.split_at(b1 - b0);
    proof {
        let t = s.skip(i0);
        let j = i1 - i0;
        assert(w.spec_bytes() =~= encode_utf8(t.take(j)));
        assert(decode_utf8(encode_utf8(w@)) == w@);
        assert(decode_utf8(encode_utf8(t.take(j))) == t.take(j));
        assert(w@ == t.take(j));
        assert(t.take(j) =~= s.subrange(i0, i1));
    }
    w
}

/// The characters of `content`.
pub fn chars_of(content: &str) -> (v: Vec<char>)
    ensures
        v@ == content@,
{
    let mut v: Vec<char> = Vec::new();
    for c in it: content.chars()
        invariant
            v@ == it.seq().take(it.index() as int),
            it.seq() == content@,
    {
        v.push(c);
    }
    v
}

/// Whether `a` and `b` hold the same characters.
pub fn str_eq(a: &str, b: &str) -> (r: bool)
    ensures
        r == (a@ == b@),
{
    let x = a.as_bytes();
    let y = b.as_bytes();
    proof {
        assert(decode_utf8(encode_utf8(a@)) == a@);
        assert(decode_utf8(encode_utf8(b@)) == b@);
    }
    if x.len() != y.len() {
        return false;
    }
    let n = x.len();
    let mut i: usize = 0;
    while i < n
        invariant
            n == x@.len(),
            n == y@.len(),
            x@ == encode_utf8(a@),
            y@ == encode_utf8(b@),
            i <= n,
            forall|k: int| 0 <= k < i ==> x@[k] == y@[k],
        decreases n - i,
    {
        if x[i] != y[i] {
            assert(x@ != y@);
            return false;
        }
        i = i + 1;
    }
    assert(x@ =~= y@);
    true
}

} // verus!
