//! Properties of the parser that span its steps.
use vstd::prelude::*;
use crate::binary::{bin_complete, bin_solid, facet_at, le_u32, record_start, triangle_count, vec3_at};
use vstd::utf8::{
    encode_utf8, encode_utf8_decode_utf8, encode_utf8_valid_utf8, is_ascii_chars,
    is_ascii_chars_encode_utf8,
};
use crate::utf8_slice::lemma_encode_utf8_concat;
use crate::{is_ascii_stl, solid_magic, stl_accepts, stl_spec};
use crate::lexeme::{is_float_literal, is_white_space};
use crate::model::{CoordModel, FacetModel, ParseErrorModel, SolidModel, Vec3Model};
use crate::text::{
    expect_f32_spec, expect_word_spec, facet_spec, facets_spec, oloop_spec, skip_ws, solid_spec, take_word_spec,
    three_f32_spec, vertex_spec, word_end,
};

verus! {

/// Every character of `s[i..j]` is whitespace.
pub open spec fn all_white(s: Seq<char>, i: int, j: int) -> bool {
    forall|k: int| i <= k < j ==> is_white_space(#[trigger] s[k])
}

/// No character of `s[i..j]` is whitespace.
pub open spec fn no_white(s: Seq<char>, i: int, j: int) -> bool {
    forall|k: int| i <= k < j ==> !is_white_space(#[trigger] s[k])
}

proof fn lemma_skip_ws_shape(s: Seq<char>, i: int)
    requires
        0 <= i <= s.len(),
    ensures
        i <= skip_ws(s, i) <= s.len(),
        all_white(s, i, skip_ws(s, i)),
        skip_ws(s, i) < s.len() ==> !is_white_space(s[skip_ws(s, i)]),
    decreases s.len() - i,
{
    if i < s.len() && is_white_space(s[i]) {
        lemma_skip_ws_shape(s, i + 1);
    }
}

proof fn lemma_word_end_shape(s: Seq<char>, i: int)
    requires
        0 <= i <= s.len(),
    ensures
        i <= word_end(s, i) <= s.len(),
        no_white(s, i, word_end(s, i)),
        word_end(s, i) < s.len() ==> is_white_space(s[word_end(s, i)]),
    decreases s.len() - i,
{
    if i < s.len() && !is_white_space(s[i]) {
        lemma_word_end_shape(s, i + 1);
    }
}

proof fn lemma_skip_ws_exact(s: Seq<char>, i: int, j: int)
    requires
        0 <= i <= j <= s.len(),
        all_white(s, i, j),
        j < s.len() ==> !is_white_space(s[j]),
    ensures
        skip_ws(s, i) == j,
    decreases j - i,
{
    if i < j {
        lemma_skip_ws_exact(s, i + 1, j);
    }
}

proof fn lemma_word_end_exact(s: Seq<char>, i: int, e: int)
    requires
        0 <= i <= e <= s.len(),
        no_white(s, i, e),
        e < s.len() ==> is_white_space(s[e]),
    ensures
        word_end(s, i) == e,
    decreases e - i,
{
    if i < e {
        lemma_word_end_exact(s, i + 1, e);
    }
}

/// A word taken by the parser is a maximal run of non-whitespace characters,
/// with only whitespace between the old position and it; at the end of the
/// text, only whitespace was left and the parser stands at the end.
pub proof fn law_take_word_is_next_run(s: Seq<char>, off: int)
    requires
        0 <= off <= s.len(),
    ensures
        ({
            let (w, o) = take_word_spec(s, off);
            match w {
                Some(w) => {
                    &&& w.len() > 0
                    &&& off + w.len() <= o <= s.len()
                    &&& w == s.subrange(o - w.len(), o)
                    &&& all_white(s, off, o - w.len())
                    &&& no_white(s, o - w.len(), o)
                    &&& (o < s.len() ==> is_white_space(s[o]))
                },
                None => o == s.len() && all_white(s, off, s.len() as int),
            }
        }),
{
    lemma_skip_ws_shape(s, off);
    let j = skip_ws(s, off);
    if j < s.len() {
        lemma_word_end_shape(s, j);
        assert(!is_white_space(s[j]));
        assert(j < word_end(s, j)) by {
            if word_end(s, j) == j {
                assert(s[j] == s[word_end(s, j)]);
            }
        }
    }
}

/// Conversely, where whitespace, then a run of non-whitespace characters
/// that ends the text or meets whitespace, follow the position, the parser
/// takes exactly that run.
pub proof fn law_take_word_reads_the_run(s: Seq<char>, off: int, j: int, e: int)
    requires
        0 <= off <= j < e <= s.len(),
        all_white(s, off, j),
        no_white(s, j, e),
        e < s.len() ==> is_white_space(s[e]),
    ensures
        take_word_spec(s, off) == (Some(s.subrange(j, e)), e),
{
    lemma_skip_ws_exact(s, off, j);
    lemma_word_end_exact(s, j, e);
}

/// `expect_word(w)` succeeds exactly where `take_word` gives `w`, and then
/// leaves the parser where `take_word` does. Where it finds another word, the
/// parser has not moved; at the end of the text, the parser stands at the end.
pub proof fn law_expect_word_is_take_word(s: Seq<char>, off: int, w: Seq<char>)
    requires
        0 <= off <= s.len(),
    ensures
        (expect_word_spec(s, off, w).0 is Ok) <==> (take_word_spec(s, off).0 == Some(w)),
        expect_word_spec(s, off, w).0 is Ok ==> expect_word_spec(s, off, w).1 == take_word_spec(
            s,
            off,
        ).1,
        expect_word_spec(s, off, w).0 is Err ==> (expect_word_spec(s, off, w).0 matches Err(
            ParseErrorModel::ExpectedWord { expected, actual },
        ) && expected == w && actual == take_word_spec(s, off).0),
        expect_word_spec(s, off, w).0 matches Err(ParseErrorModel::ExpectedWord {
            actual: Some(_),
            ..
        }) ==> expect_word_spec(s, off, w).1 == off,
        expect_word_spec(s, off, w).0 matches Err(ParseErrorModel::ExpectedWord {
            actual: None,
            ..
        }) ==> expect_word_spec(s, off, w).1 == s.len(),
{
    law_take_word_is_next_run(s, off);
}

/// `expect_f32` always moves past one word, as `take_word` does, and accepts
/// it exactly where it is a number.
pub proof fn law_expect_f32_takes_one_word(s: Seq<char>, off: int)
    requires
        0 <= off <= s.len(),
    ensures
        expect_f32_spec(s, off).1 == take_word_spec(s, off).1,
        take_word_spec(s, off).0 matches Some(w) ==> (expect_f32_spec(s, off).0 is Ok
            <==> is_float_literal(w)),
        expect_f32_spec(s, off).0 matches Ok(c) ==> c == CoordModel::Text(
            take_word_spec(s, off).0.unwrap(),
        ),
        take_word_spec(s, off).0 is None ==> expect_f32_spec(s, off).0 == Err::<
            CoordModel,
            ParseErrorModel,
        >(ParseErrorModel::ExpectedF32 { actual: None }),
{
}

/// A binary solid has as many facets as its count announces.
pub proof fn law_binary_facet_count(b: Seq<u8>)
    ensures
        bin_solid(b).facets.len() == triangle_count(b),
        bin_solid(b).name is None,
{
}

/// Only the count and the twelve coordinates of each record make the binary
/// solid: two files that agree on those bytes give the same solid, whatever
/// their headers and attribute bytes hold.
pub proof fn law_binary_ignores_header_and_attributes(b1: Seq<u8>, b2: Seq<u8>)
    requires
        forall|i: int| 80 <= i < 84 ==> b1[i] == b2[i],
        forall|k: int, i: int|
            0 <= k < triangle_count(b1) && 0 <= i < 48 ==> #[trigger] b1[record_start(k) + i]
                == b2[record_start(k) + i],
    ensures
        bin_solid(b1) == bin_solid(b2),
{
    assert(triangle_count(b1) == triangle_count(b2));
    let f1 = bin_solid(b1).facets;
    let f2 = bin_solid(b2).facets;
    assert forall|k: int| 0 <= k < f1.len() implies f1[k] == f2[k] by {
        let p = record_start(k);
        assert forall|q: int| 0 <= q < 12 implies #[trigger] le_u32(b1, p + 4 * q) == le_u32(b2, p + 4 * q) by {
            assert(b1[record_start(k) + (4 * q)] == b2[record_start(k) + (4 * q)]);
            assert(b1[record_start(k) + (4 * q + 1)] == b2[record_start(k) + (4 * q + 1)]);
            assert(b1[record_start(k) + (4 * q + 2)] == b2[record_start(k) + (4 * q + 2)]);
            assert(b1[record_start(k) + (4 * q + 3)] == b2[record_start(k) + (4 * q + 3)]);
        }
        assert(le_u32(b1, p + 4 * 0) == le_u32(b2, p + 4 * 0));
        assert(le_u32(b1, p + 4 * 1) == le_u32(b2, p + 4 * 1));
        assert(le_u32(b1, p + 4 * 2) == le_u32(b2, p + 4 * 2));
        assert(le_u32(b1, p + 4 * 3) == le_u32(b2, p + 4 * 3));
        assert(le_u32(b1, p + 4 * 4) == le_u32(b2, p + 4 * 4));
        assert(le_u32(b1, p + 4 * 5) == le_u32(b2, p + 4 * 5));
        assert(le_u32(b1, p + 4 * 6) == le_u32(b2, p + 4 * 6));
        assert(le_u32(b1, p + 4 * 7) == le_u32(b2, p + 4 * 7));
        assert(le_u32(b1, p + 4 * 8) == le_u32(b2, p + 4 * 8));
        assert(le_u32(b1, p + 4 * 9) == le_u32(b2, p + 4 * 9));
        assert(le_u32(b1, p + 4 * 10) == le_u32(b2, p + 4 * 10));
        assert(le_u32(b1, p + 4 * 11) == le_u32(b2, p + 4 * 11));
        assert(vec3_at(b1, p) == vec3_at(b2, p));
        assert(facet_at(b1, p) == facet_at(b2, p));
    }
    assert(f1 =~= f2);
}

/// A word of the format: characters, none of them whitespace.
pub open spec fn valid_word(w: Seq<char>) -> bool {
    w.len() > 0 && no_white(w, 0, w.len() as int)
}

/// The words `ws`, each one after a space.
pub open spec fn lead(ws: Seq<Seq<char>>) -> Seq<char>
    decreases ws.len(),
{
    if ws.len() == 0 {
        Seq::empty()
    } else {
        seq![' '] + ws[0] + lead(ws.drop_first())
    }
}

/// Position `e` ends a word: the text ends there or whitespace follows.
pub open spec fn ends_word(s: Seq<char>, e: int) -> bool {
    e == s.len() || (0 <= e < s.len() && is_white_space(s[e]))
}

/// At position `p`, the text holds the words `ws`, each after a space, and
/// then ends or goes on with whitespace.
pub open spec fn holds_words(s: Seq<char>, p: int, ws: Seq<Seq<char>>) -> bool {
    &&& 0 <= p
    &&& p + lead(ws).len() <= s.len()
    &&& s.subrange(p, p + lead(ws).len()) == lead(ws)
    &&& forall|i: int| 0 <= i < ws.len() ==> valid_word(#[trigger] ws[i])
    &&& ends_word(s, p + lead(ws).len())
}

pub(crate) proof fn lemma_lead_concat(a: Seq<Seq<char>>, b: Seq<Seq<char>>)
    ensures
        lead(a + b) == lead(a) + lead(b),
    decreases a.len(),
{
    if a.len() == 0 {
        assert(a + b =~= b);
        assert(lead(a) + lead(b) =~= lead(b));
    } else {
        assert((a + b).drop_first() =~= a.drop_first() + b);
        lemma_lead_concat(a.drop_first(), b);
        assert(lead(a + b) =~= lead(a) + lead(b));
    }
}

/// The words `a + b` at `p` are the words `a` at `p`, then the words `b`.
pub(crate) proof fn lemma_holds_words_split(s: Seq<char>, p: int, a: Seq<Seq<char>>, b: Seq<Seq<char>>)
    requires
        holds_words(s, p, a + b),
    ensures
        lead(a + b).len() == lead(a).len() + lead(b).len(),
        holds_words(s, p, a),
        holds_words(s, p + lead(a).len(), b),
{
    lemma_lead_concat(a, b);
    let la = lead(a).len() as int;
    let lb = lead(b).len() as int;
    assert(s.subrange(p, p + la + lb) == lead(a) + lead(b));
    assert(s.subrange(p, p + la) =~= s.subrange(p, p + la + lb).subrange(0, la));
    assert(s.subrange(p, p + la) =~= lead(a));
    assert(s.subrange(p + la, p + la + lb) =~= s.subrange(p, p + la + lb).subrange(la, la + lb));
    assert(s.subrange(p + la, p + la + lb) =~= lead(b));
    assert forall|i: int| 0 <= i < a.len() implies valid_word(#[trigger] a[i]) by {
        assert(a[i] == (a + b)[i]);
    }
    assert forall|i: int| 0 <= i < b.len() implies valid_word(#[trigger] b[i]) by {
        assert(b[i] == (a + b)[a.len() + i]);
    }
    if b.len() > 0 {
        assert(s[p + la] == s.subrange(p, p + la + lb)[la]);
        assert(lead(b)[0] == ' ');
        assert(is_white_space(' '));
    } else {
        assert(lb == 0);
    }
}

/// Reading the first of the words held at `p`.
proof fn lemma_holds_words_step(s: Seq<char>, p: int, ws: Seq<Seq<char>>)
    requires
        holds_words(s, p, ws),
        ws.len() > 0,
    ensures
        take_word_spec(s, p) == (Some(ws[0]), p + 1 + ws[0].len()),
        holds_words(s, p + 1 + ws[0].len(), ws.drop_first()),
{
    let w = ws[0];
    let rest = ws.drop_first();
    assert(ws =~= seq![w] + rest);
    assert(lead(seq![w]) =~= seq![' '] + w) by {
        reveal_with_fuel(lead, 2);
        assert(seq![w].drop_first() =~= Seq::<Seq<char>>::empty());
    }
    lemma_holds_words_split(s, p, seq![w], rest);
    let e = p + 1 + w.len();
    assert(s[p] == s.subrange(p, e)[0]);
    assert(s.subrange(p + 1, e) =~= s.subrange(p, e).subrange(1, 1 + w.len() as int));
    assert(valid_word(ws[0]));
    assert forall|k: int| p + 1 <= k < e implies !is_white_space(#[trigger] s[k]) by {
        assert(s[k] == s.subrange(p + 1, e)[k - (p + 1)]);
    }
    law_take_word_reads_the_run(s, p, p + 1, e);
}

/// Reading a single word held at `p`.
pub(crate) proof fn lemma_read_one(s: Seq<char>, p: int, w: Seq<char>)
    requires
        holds_words(s, p, seq![w]),
    ensures
        take_word_spec(s, p) == (Some(w), p + lead(seq![w]).len()),
        lead(seq![w]).len() == 1 + w.len(),
{
    lemma_holds_words_step(s, p, seq![w]);
    assert(lead(seq![w]) =~= seq![' '] + w) by {
        reveal_with_fuel(lead, 2);
        assert(seq![w].drop_first() =~= Seq::<Seq<char>>::empty());
    }
}

/// The word of a coordinate read from a text.
pub open spec fn coord_word(c: CoordModel) -> Seq<char> {
    match c {
        CoordModel::Text(w) => w,
        CoordModel::Bits(_) => Seq::empty(),
    }
}

/// A coordinate that a text can hold: a number word.
pub open spec fn number_ok(c: CoordModel) -> bool {
    c matches CoordModel::Text(w) && is_float_literal(w) && valid_word(w)
}

pub open spec fn vec3_ok(v: Vec3Model) -> bool {
    number_ok(v.0) && number_ok(v.1) && number_ok(v.2)
}

pub open spec fn facet_ok(f: FacetModel) -> bool {
    vec3_ok(f.normal) && vec3_ok(f.v1) && vec3_ok(f.v2) && vec3_ok(f.v3)
}

/// The words of three coordinates.
pub open spec fn vec3_words(v: Vec3Model) -> Seq<Seq<char>> {
    seq![coord_word(v.0)] + (seq![coord_word(v.1)] + seq![coord_word(v.2)])
}

/// `vertex x y z`
pub open spec fn vertex_words(v: Vec3Model) -> Seq<Seq<char>> {
    seq!["vertex"@] + vec3_words(v)
}

/// `outer loop`, three vertices, `endloop`
pub open spec fn oloop_words(v1: Vec3Model, v2: Vec3Model, v3: Vec3Model) -> Seq<Seq<char>> {
    seq!["outer"@] + (seq!["loop"@] + (vertex_words(v1) + (vertex_words(v2) + (vertex_words(v3)
        + seq!["endloop"@]))))
}

/// `facet normal x y z`, the loop, `endfacet`
pub open spec fn facet_words(f: FacetModel) -> Seq<Seq<char>> {
    seq!["facet"@] + (seq!["normal"@] + (vec3_words(f.normal) + (oloop_words(f.v1, f.v2, f.v3)
        + seq!["endfacet"@])))
}

proof fn lemma_read_three(s: Seq<char>, p: int, v: Vec3Model)
    requires
        holds_words(s, p, vec3_words(v)),
        vec3_ok(v),
    ensures
        three_f32_spec(s, p) == (Ok::<Vec3Model, ParseErrorModel>(v), p + lead(vec3_words(v)).len()),
{
    let a = seq![coord_word(v.0)];
    let b = seq![coord_word(v.1)];
    let c = seq![coord_word(v.2)];
    lemma_holds_words_split(s, p, a, b + c);
    let p1 = p + lead(a).len();
    lemma_holds_words_split(s, p1, b, c);
    let p2 = p1 + lead(b).len();
    lemma_read_one(s, p, coord_word(v.0));
    lemma_read_one(s, p1, coord_word(v.1));
    lemma_read_one(s, p2, coord_word(v.2));
}

pub(crate) proof fn lemma_read_keyword(s: Seq<char>, p: int, w: Seq<char>)
    requires
        holds_words(s, p, seq![w]),
    ensures
        expect_word_spec(s, p, w) == (Ok::<(), ParseErrorModel>(()), p + lead(seq![w]).len()),
{
    lemma_read_one(s, p, w);
}

proof fn lemma_read_vertex(s: Seq<char>, p: int, v: Vec3Model)
    requires
        holds_words(s, p, vertex_words(v)),
        vec3_ok(v),
    ensures
        vertex_spec(s, p) == (Ok::<Vec3Model, ParseErrorModel>(v), p + lead(vertex_words(v)).len()),
{
    lemma_holds_words_split(s, p, seq!["vertex"@], vec3_words(v));
    lemma_read_keyword(s, p, "vertex"@);
    lemma_read_three(s, p + lead(seq!["vertex"@]).len(), v);
}

pub(crate) proof fn lemma_read_oloop(s: Seq<char>, p: int, v1: Vec3Model, v2: Vec3Model, v3: Vec3Model)
    requires
        holds_words(s, p, oloop_words(v1, v2, v3)),
        vec3_ok(v1),
        vec3_ok(v2),
        vec3_ok(v3),
    ensures
        oloop_spec(s, p) == (Ok::<(Vec3Model, Vec3Model, Vec3Model), ParseErrorModel>((v1, v2, v3)), p
            + lead(oloop_words(v1, v2, v3)).len()),
{
    let w_end = seq!["endloop"@];
    let r3 = vertex_words(v3) + w_end;
    let r2 = vertex_words(v2) + r3;
    let r1 = vertex_words(v1) + r2;
    let r0 = seq!["loop"@] + r1;
    lemma_holds_words_split(s, p, seq!["outer"@], r0);
    let p1 = p + lead(seq!["outer"@]).len();
    lemma_holds_words_split(s, p1, seq!["loop"@], r1);
    let p2 = p1 + lead(seq!["loop"@]).len();
    lemma_holds_words_split(s, p2, vertex_words(v1), r2);
    let p3 = p2 + lead(vertex_words(v1)).len();
    lemma_holds_words_split(s, p3, vertex_words(v2), r3);
    let p4 = p3 + lead(vertex_words(v2)).len();
    lemma_holds_words_split(s, p4, vertex_words(v3), w_end);
    let p5 = p4 + lead(vertex_words(v3)).len();
    lemma_read_keyword(s, p, "outer"@);
    lemma_read_keyword(s, p1, "loop"@);
    lemma_read_vertex(s, p2, v1);
    lemma_read_vertex(s, p3, v2);
    lemma_read_vertex(s, p4, v3);
    lemma_read_keyword(s, p5, "endloop"@);
}

/// A facet held at `p` reads back.
pub(crate) proof fn lemma_read_facet(s: Seq<char>, p: int, f: FacetModel)
    requires
        holds_words(s, p, facet_words(f)),
        facet_ok(f),
    ensures
        facet_spec(s, p) == (Ok::<FacetModel, ParseErrorModel>(f), p + lead(facet_words(f)).len()),
{
    let w_end = seq!["endfacet"@];
    let r2 = oloop_words(f.v1, f.v2, f.v3) + w_end;
    let r1 = vec3_words(f.normal) + r2;
    let r0 = seq!["normal"@] + r1;
    lemma_holds_words_split(s, p, seq!["facet"@], r0);
    let p1 = p + lead(seq!["facet"@]).len();
    lemma_holds_words_split(s, p1, seq!["normal"@], r1);
    let p2 = p1 + lead(seq!["normal"@]).len();
    lemma_holds_words_split(s, p2, vec3_words(f.normal), r2);
    let p3 = p2 + lead(vec3_words(f.normal)).len();
    lemma_holds_words_split(s, p3, oloop_words(f.v1, f.v2, f.v3), w_end);
    let p4 = p3 + lead(oloop_words(f.v1, f.v2, f.v3)).len();
    lemma_read_keyword(s, p, "facet"@);
    lemma_read_keyword(s, p1, "normal"@);
    lemma_read_three(s, p2, f.normal);
    lemma_read_oloop(s, p3, f.v1, f.v2, f.v3);
    lemma_read_keyword(s, p4, "endfacet"@);
}

/// Every word of `ws` is a word of the format.
pub open spec fn all_valid(ws: Seq<Seq<char>>) -> bool {
    forall|i: int| 0 <= i < ws.len() ==> valid_word(#[trigger] ws[i])
}

pub(crate) proof fn lemma_all_valid_concat(a: Seq<Seq<char>>, b: Seq<Seq<char>>)
    requires
        all_valid(a),
        all_valid(b),
    ensures
        all_valid(a + b),
{
    assert forall|i: int| 0 <= i < (a + b).len() implies valid_word(#[trigger] (a + b)[i]) by {
        if i < a.len() {
            assert((a + b)[i] == a[i]);
        } else {
            assert((a + b)[i] == b[i - a.len()]);
        }
    }
}

pub(crate) proof fn lemma_keywords_valid()
    ensures
        valid_word("solid"@),
        valid_word("endsolid"@),
        valid_word("facet"@),
        valid_word("normal"@),
        valid_word("outer"@),
        valid_word("loop"@),
        valid_word("vertex"@),
        valid_word("endloop"@),
        valid_word("endfacet"@),
        "endsolid"@ != "facet"@,
{
    reveal_strlit("solid");
    reveal_strlit("endsolid");
    reveal_strlit("facet");
    reveal_strlit("normal");
    reveal_strlit("outer");
    reveal_strlit("loop");
    reveal_strlit("vertex");
    reveal_strlit("endloop");
    reveal_strlit("endfacet");
    assert("endsolid"@.len() != "facet"@.len());
}

proof fn lemma_one_valid(w: Seq<char>)
    requires
        valid_word(w),
    ensures
        all_valid(seq![w]),
{
}

pub(crate) proof fn lemma_facet_words_valid(f: FacetModel)
    requires
        facet_ok(f),
    ensures
        all_valid(facet_words(f)),
{
    lemma_keywords_valid();
    let vs = seq![f.normal, f.v1, f.v2, f.v3];
    assert forall|k: int| 0 <= k < 4 implies all_valid(#[trigger] vec3_words(vs[k])) by {
        let v = vs[k];
        lemma_all_valid_concat(seq![coord_word(v.1)], seq![coord_word(v.2)]);
        lemma_all_valid_concat(seq![coord_word(v.0)], seq![coord_word(v.1)] + seq![coord_word(v.2)]);
    }
    assert(all_valid(vec3_words(vs[0])));
    assert(all_valid(vec3_words(vs[1])));
    assert(all_valid(vec3_words(vs[2])));
    assert(all_valid(vec3_words(vs[3])));
    lemma_one_valid("vertex"@);
    lemma_all_valid_concat(seq!["vertex"@], vec3_words(f.v1));
    lemma_all_valid_concat(seq!["vertex"@], vec3_words(f.v2));
    lemma_all_valid_concat(seq!["vertex"@], vec3_words(f.v3));
    lemma_one_valid("endloop"@);
    lemma_one_valid("loop"@);
    lemma_one_valid("outer"@);
    lemma_all_valid_concat(vertex_words(f.v3), seq!["endloop"@]);
    lemma_all_valid_concat(vertex_words(f.v2), vertex_words(f.v3) + seq!["endloop"@]);
    lemma_all_valid_concat(
        vertex_words(f.v1),
        vertex_words(f.v2) + (vertex_words(f.v3) + seq!["endloop"@]),
    );
    lemma_all_valid_concat(
        seq!["loop"@],
        vertex_words(f.v1) + (vertex_words(f.v2) + (vertex_words(f.v3) + seq!["endloop"@])),
    );
    lemma_all_valid_concat(
        seq!["outer"@],
        seq!["loop"@] + (vertex_words(f.v1) + (vertex_words(f.v2) + (vertex_words(f.v3)
            + seq!["endloop"@]))),
    );
    lemma_one_valid("endfacet"@);
    lemma_one_valid("normal"@);
    lemma_one_valid("facet"@);
    let l = oloop_words(f.v1, f.v2, f.v3);
    lemma_all_valid_concat(l, seq!["endfacet"@]);
    lemma_all_valid_concat(vec3_words(f.normal), l + seq!["endfacet"@]);
    lemma_all_valid_concat(seq!["normal"@], vec3_words(f.normal) + (l + seq!["endfacet"@]));
    lemma_all_valid_concat(
        seq!["facet"@],
        seq!["normal"@] + (vec3_words(f.normal) + (l + seq!["endfacet"@])),
    );
}

/// The words of a list of facets.
pub open spec fn facets_words(fs: Seq<FacetModel>) -> Seq<Seq<char>>
    decreases fs.len(),
{
    if fs.len() == 0 {
        Seq::empty()
    } else {
        facet_words(fs[0]) + facets_words(fs.drop_first())
    }
}

pub(crate) proof fn lemma_facets_words_valid(fs: Seq<FacetModel>)
    requires
        forall|i: int| 0 <= i < fs.len() ==> facet_ok(#[trigger] fs[i]),
    ensures
        all_valid(facets_words(fs)),
    decreases fs.len(),
{
    if fs.len() > 0 {
        assert(facet_ok(fs[0]));
        lemma_facet_words_valid(fs[0]);
        assert forall|i: int| 0 <= i < fs.drop_first().len() implies facet_ok(
            #[trigger] fs.drop_first()[i],
        ) by {
            assert(fs.drop_first()[i] == fs[i + 1]);
        }
        lemma_facets_words_valid(fs.drop_first());
        lemma_all_valid_concat(facet_words(fs[0]), facets_words(fs.drop_first()));
    }
}

/// Facets held at `p`, followed by a word other than `facet`, read back.
pub(crate) proof fn lemma_read_facets(s: Seq<char>, p: int, fs: Seq<FacetModel>, tail: Seq<Seq<char>>)
    requires
        holds_words(s, p, facets_words(fs) + tail),
        tail.len() > 0 ==> tail[0] != "facet"@,
        tail.len() == 0 ==> p + lead(facets_words(fs)).len() == s.len(),
        forall|i: int| 0 <= i < fs.len() ==> facet_ok(#[trigger] fs[i]),
    ensures
        facets_spec(s, p) == (Ok::<Seq<FacetModel>, ParseErrorModel>(fs), p + lead(
            facets_words(fs),
        ).len()),
    decreases fs.len(),
{
    lemma_keywords_valid();
    if fs.len() == 0 {
        assert(facets_words(fs) + tail =~= tail);
        assert(fs =~= Seq::<FacetModel>::empty());
        if tail.len() > 0 {
            lemma_holds_words_step(s, p, tail);
        } else {
            law_take_word_is_next_run(s, p);
        }
        assert(lead(facets_words(fs)).len() == 0);
        assert(take_word_spec(s, p).0 != Some("facet"@));
    } else {
        let f = fs[0];
        let rest = fs.drop_first();
        assert(facets_words(fs) + tail =~= facet_words(f) + (facets_words(rest) + tail));
        lemma_holds_words_split(s, p, facet_words(f), facets_words(rest) + tail);
        let p1 = p + lead(facet_words(f)).len();
        lemma_holds_words_step(s, p, facet_words(f));
        assert(facet_words(f)[0] == "facet"@);
        assert(facet_ok(fs[0]));
        lemma_read_facet(s, p, f);
        assert forall|i: int| 0 <= i < rest.len() implies facet_ok(#[trigger] rest[i]) by {
            assert(rest[i] == fs[i + 1]);
        }
        lemma_lead_concat(facet_words(f), facets_words(rest));
        lemma_read_facets(s, p1, rest, tail);
        assert(seq![f] + rest =~= fs);
        assert(lead(facet_words(f)).len() > 0);
        assert(0 <= p < p1 <= s.len());
        assert(facet_spec(s, p) == (Ok::<FacetModel, ParseErrorModel>(f), p1));
        assert(take_word_spec(s, p).0 == Some("facet"@));
        assert(facets_words(fs) == facet_words(f) + facets_words(rest));
    }
}

/// The words of a named solid after `solid`: its name, its facets,
/// `endsolid` and its name again.
pub open spec fn solid_rest_words(sm: SolidModel) -> Seq<Seq<char>> {
    let name = sm.name.unwrap();
    seq![name] + (facets_words(sm.facets) + (seq!["endsolid"@] + seq![name]))
}

/// A named solid written as ASCII STL: `solid name`, then each facet as
/// `facet normal x y z outer loop vertex x y z ... endloop endfacet`, then
/// `endsolid name`, the words separated by single spaces.
pub open spec fn solid_text(sm: SolidModel) -> Seq<char> {
    "solid"@ + lead(solid_rest_words(sm))
}

/// A solid that a text can hold: named by a word, with number words for
/// coordinates.
pub open spec fn solid_ok(sm: SolidModel) -> bool {
    &&& sm.name matches Some(n) && valid_word(n)
    &&& forall|i: int| 0 <= i < sm.facets.len() ==> facet_ok(#[trigger] sm.facets[i])
}

/// A named solid written as ASCII STL reads back as that solid, and the
/// parser ends at the end of the text.
pub proof fn law_ascii_solid_reads_back(sm: SolidModel)
    requires
        solid_ok(sm),
    ensures
        solid_spec(solid_text(sm), 0) == Some(
            (Ok::<SolidModel, ParseErrorModel>(sm), solid_text(sm).len() as int),
        ),
{
    lemma_keywords_valid();
    reveal_strlit("solid");
    let name = sm.name.unwrap();
    let fs = sm.facets;
    let r1 = solid_rest_words(sm);
    let s = solid_text(sm);
    // every word after `solid` is a word of the format
    lemma_facets_words_valid(fs);
    lemma_all_valid_concat(seq!["endsolid"@], seq![name]);
    lemma_all_valid_concat(facets_words(fs), seq!["endsolid"@] + seq![name]);
    lemma_all_valid_concat(seq![name], facets_words(fs) + (seq!["endsolid"@] + seq![name]));
    assert(s.subrange(5, s.len() as int) =~= lead(r1));
    assert(holds_words(s, 5, r1));
    // `solid`, read from the start of the text
    assert(lead(r1)[0] == ' ');
    assert(s[5] == lead(r1)[0]);
    assert(is_white_space(' '));
    assert forall|k: int| 0 <= k < 5 implies !is_white_space(#[trigger] s[k]) by {
        assert(s[k] == "solid"@[k]);
    }
    law_take_word_reads_the_run(s, 0, 0, 5);
    assert(s.subrange(0, 5) =~= "solid"@);
    assert(expect_word_spec(s, 0, "solid"@) == (Ok::<(), ParseErrorModel>(()), 5int));
    // then the rest
    let tail = seq!["endsolid"@] + seq![name];
    let r2 = facets_words(fs) + tail;
    let p1 = 5int;
    lemma_holds_words_split(s, p1, seq![name], r2);
    let p2 = p1 + lead(seq![name]).len();
    lemma_read_one(s, p1, name);
    lemma_holds_words_split(s, p2, facets_words(fs), tail);
    let p3 = p2 + lead(facets_words(fs)).len();
    assert(tail[0] == "endsolid"@);
    lemma_read_facets(s, p2, fs, tail);
    lemma_holds_words_split(s, p3, seq!["endsolid"@], seq![name]);
    let p4 = p3 + lead(seq!["endsolid"@]).len();
    lemma_read_keyword(s, p3, "endsolid"@);
    lemma_read_one(s, p4, name);
}

/// A text that opens with `solid` is, in UTF-8, a file read as ASCII.
proof fn lemma_solid_prefix(rest: Seq<char>)
    ensures
        is_ascii_stl(encode_utf8("solid"@ + rest)),
{
    reveal_strlit("solid");
    let b = encode_utf8("solid"@ + rest);
    lemma_encode_utf8_concat("solid"@, rest);
    assert(is_ascii_chars("solid"@));
    is_ascii_chars_encode_utf8("solid"@);
    let head = encode_utf8("solid"@);
    assert(b.take(5) =~= head);
    assert(head[0] == ('s' as u8));
    assert(head[1] == ('o' as u8));
    assert(head[2] == ('l' as u8));
    assert(head[3] == ('i' as u8));
    assert(head[4] == ('d' as u8));
    assert(head =~= solid_magic());
}

/// A named solid written as ASCII STL and encoded in UTF-8 is a file that
/// `parse_stl` accepts, and it reads back as that solid.
pub proof fn law_parse_stl_reads_ascii_solid(sm: SolidModel)
    requires
        solid_ok(sm),
    ensures
        stl_accepts(encode_utf8(solid_text(sm))),
        stl_spec(encode_utf8(solid_text(sm))) == Ok::<SolidModel, ParseErrorModel>(sm),
{
    law_ascii_solid_reads_back(sm);
    let t = solid_text(sm);
    lemma_solid_prefix(lead(solid_rest_words(sm)));
    encode_utf8_decode_utf8(t);
    encode_utf8_valid_utf8(t);
}

/// The four bytes of `x`, least significant first.
pub open spec fn le_bytes(x: u32) -> Seq<u8> {
    seq![
        (x % 0x100) as u8,
        ((x / 0x100) % 0x100) as u8,
        ((x / 0x1_0000) % 0x100) as u8,
        (x / 0x100_0000) as u8,
    ]
}

proof fn lemma_le_u32_of_le_bytes(b: Seq<u8>, i: int, x: u32)
    requires
        0 <= i,
        i + 4 <= b.len(),
        b.subrange(i, i + 4) == le_bytes(x),
    ensures
        le_u32(b, i) == x,
{
    assert(b[i] == le_bytes(x)[0]);
    assert(b[i + 1] == le_bytes(x)[1]);
    assert(b[i + 2] == le_bytes(x)[2]);
    assert(b[i + 3] == le_bytes(x)[3]);
    let x0 = x % 0x100;
    let x1 = (x / 0x100) % 0x100;
    let x2 = (x / 0x1_0000) % 0x100;
    let x3 = x / 0x100_0000;
    assert(x0 + x1 * 0x100 + x2 * 0x1_0000 + x3 * 0x100_0000 == x) by (nonlinear_arith)
        requires
            x0 == x % 0x100,
            x1 == (x / 0x100) % 0x100,
            x2 == (x / 0x1_0000) % 0x100,
            x3 == x / 0x100_0000,
            x <= 0xffff_ffff,
    {
        assert(x == 0x100 * (x / 0x100) + x % 0x100);
        assert(x / 0x100 == 0x100 * (x / 0x1_0000) + (x / 0x100) % 0x100);
        assert(x / 0x1_0000 == 0x100 * (x / 0x100_0000) + (x / 0x1_0000) % 0x100);
    }
}

/// The bit pattern of a coordinate read from a binary file.
pub open spec fn coord_bits(c: CoordModel) -> u32 {
    match c {
        CoordModel::Bits(b) => b,
        CoordModel::Text(_) => 0,
    }
}

/// A facet that a binary file can hold: every coordinate a bit pattern.
pub open spec fn facet_bits_ok(f: FacetModel) -> bool {
    &&& vec3_bits_ok(f.normal)
    &&& vec3_bits_ok(f.v1)
    &&& vec3_bits_ok(f.v2)
    &&& vec3_bits_ok(f.v3)
}

pub open spec fn vec3_bits_ok(v: Vec3Model) -> bool {
    v.0 is Bits && v.1 is Bits && v.2 is Bits
}

pub open spec fn vec3_bytes(v: Vec3Model) -> Seq<u8> {
    le_bytes(coord_bits(v.0)) + le_bytes(coord_bits(v.1)) + le_bytes(coord_bits(v.2))
}

/// The 50-byte record of a facet, with both attribute bytes zero.
pub open spec fn record_bytes(f: FacetModel) -> Seq<u8> {
    vec3_bytes(f.normal) + vec3_bytes(f.v1) + vec3_bytes(f.v2) + vec3_bytes(f.v3) + seq![0u8, 0u8]
}

/// The records of a list of facets.
pub open spec fn records_bytes(fs: Seq<FacetModel>) -> Seq<u8>
    decreases fs.len(),
{
    if fs.len() == 0 {
        Seq::empty()
    } else {
        record_bytes(fs[0]) + records_bytes(fs.drop_first())
    }
}

/// A binary file: the 80-byte `header`, the count, the records of `fs`.
pub open spec fn bin_file(header: Seq<u8>, fs: Seq<FacetModel>) -> Seq<u8> {
    header + le_bytes(fs.len() as u32) + records_bytes(fs)
}

proof fn lemma_records_bytes(fs: Seq<FacetModel>, k: int)
    requires
        0 <= k < fs.len(),
    ensures
        records_bytes(fs).len() == 50 * fs.len(),
        records_bytes(fs).subrange(50 * k, 50 * k + 50) == record_bytes(fs[k]),
    decreases fs.len(),
{
    let r = records_bytes(fs);
    let rest = fs.drop_first();
    assert(record_bytes(fs[0]).len() == 50);
    if fs.len() == 1 {
        assert(records_bytes(rest).len() == 0);
        assert(r.subrange(0, 50) =~= record_bytes(fs[0]));
    } else {
        if k == 0 {
            lemma_records_bytes(rest, 0);
            assert(r.subrange(0, 50) =~= record_bytes(fs[0]));
        } else {
            lemma_records_bytes(rest, k - 1);
            assert(rest[k - 1] == fs[k]);
            assert(r.subrange(50 * k, 50 * k + 50) =~= records_bytes(rest).subrange(
                50 * (k - 1),
                50 * (k - 1) + 50,
            ));
        }
    }
}

proof fn lemma_records_bytes_len(fs: Seq<FacetModel>)
    ensures
        records_bytes(fs).len() == 50 * fs.len(),
{
    if fs.len() > 0 {
        lemma_records_bytes(fs, 0);
    }
}

/// Three coordinates at `p` of a file whose bytes from `p` are theirs.
proof fn lemma_vec3_at_bytes(b: Seq<u8>, p: int, v: Vec3Model)
    requires
        0 <= p,
        p + 12 <= b.len(),
        b.subrange(p, p + 12) == vec3_bytes(v),
        vec3_bits_ok(v),
    ensures
        vec3_at(b, p) == v,
{
    let w = vec3_bytes(v);
    assert(b.subrange(p, p + 4) =~= w.subrange(0, 4));
    assert(w.subrange(0, 4) =~= le_bytes(coord_bits(v.0)));
    assert(b.subrange(p + 4, p + 8) =~= w.subrange(4, 8));
    assert(w.subrange(4, 8) =~= le_bytes(coord_bits(v.1)));
    assert(b.subrange(p + 8, p + 12) =~= w.subrange(8, 12));
    assert(w.subrange(8, 12) =~= le_bytes(coord_bits(v.2)));
    lemma_le_u32_of_le_bytes(b, p, coord_bits(v.0));
    lemma_le_u32_of_le_bytes(b, p + 4, coord_bits(v.1));
    lemma_le_u32_of_le_bytes(b, p + 8, coord_bits(v.2));
}

proof fn lemma_record_parts(f: FacetModel)
    ensures
        record_bytes(f).len() == 50,
        record_bytes(f).subrange(0, 12) == vec3_bytes(f.normal),
        record_bytes(f).subrange(12, 24) == vec3_bytes(f.v1),
        record_bytes(f).subrange(24, 36) == vec3_bytes(f.v2),
        record_bytes(f).subrange(36, 48) == vec3_bytes(f.v3),
{
    let a = vec3_bytes(f.normal);
    let b = vec3_bytes(f.v1);
    let c = vec3_bytes(f.v2);
    let d = vec3_bytes(f.v3);
    let r = record_bytes(f);
    assert(r == a + b + c + d + seq![0u8, 0u8]);
    assert(r.subrange(0, 12) =~= a);
    assert(r.subrange(12, 24) =~= b);
    assert(r.subrange(24, 36) =~= c);
    assert(r.subrange(36, 48) =~= d);
}

/// The facet at `p` of a file whose bytes from `p` are the record of `f`.
proof fn lemma_facet_at_record(b: Seq<u8>, p: int, f: FacetModel)
    requires
        0 <= p,
        p + 50 <= b.len(),
        b.subrange(p, p + 50) == record_bytes(f),
        facet_bits_ok(f),
    ensures
        facet_at(b, p) == f,
{
    let r = record_bytes(f);
    lemma_record_parts(f);
    assert(b.subrange(p, p + 12) =~= r.subrange(0, 12));
    assert(b.subrange(p + 12, p + 24) =~= r.subrange(12, 24));
    assert(b.subrange(p + 24, p + 36) =~= r.subrange(24, 36));
    assert(b.subrange(p + 36, p + 48) =~= r.subrange(36, 48));
    lemma_vec3_at_bytes(b, p, f.normal);
    lemma_vec3_at_bytes(b, p + 12, f.v1);
    lemma_vec3_at_bytes(b, p + 24, f.v2);
    lemma_vec3_at_bytes(b, p + 36, f.v3);
}

/// A binary file written from facets (an 80-byte header, their count, a
/// record of their bit patterns each) holds all its records and reads back
/// as those facets; `parse_stl` reads it so where its header does not open
/// with `solid`.
pub proof fn law_binary_solid_reads_back(header: Seq<u8>, fs: Seq<FacetModel>)
    requires
        header.len() == 80,
        fs.len() <= u32::MAX,
        forall|k: int| 0 <= k < fs.len() ==> facet_bits_ok(#[trigger] fs[k]),
    ensures
        bin_complete(bin_file(header, fs)),
        bin_solid(bin_file(header, fs)) == (SolidModel { name: None, facets: fs }),
        !is_ascii_stl(bin_file(header, fs)) ==> stl_accepts(bin_file(header, fs)) && stl_spec(
            bin_file(header, fs),
        ) == Ok::<SolidModel, ParseErrorModel>(SolidModel { name: None, facets: fs }),
{
    let b = bin_file(header, fs);
    let n = fs.len() as u32;
    lemma_records_bytes_len(fs);
    assert(b.subrange(80, 84) =~= le_bytes(n));
    lemma_le_u32_of_le_bytes(b, 80, n);
    assert(triangle_count(b) == n);
    let got = bin_solid(b).facets;
    assert forall|k: int| 0 <= k < fs.len() implies #[trigger] got[k] == fs[k] by {
        lemma_records_bytes(fs, k);
        let p = record_start(k);
        assert(b.subrange(p, p + 50) =~= records_bytes(fs).subrange(50 * k, 50 * k + 50));
        lemma_facet_at_record(b, p, fs[k]);
    }
    assert(got =~= fs);
}

/// Bytes after the last record change nothing: a complete binary file stays
/// complete and gives the same solid, and a file that `parse_stl` reads as
/// binary is still accepted and read the same.
pub proof fn law_binary_ignores_trailing_bytes(b: Seq<u8>, t: Seq<u8>)
    requires
        bin_complete(b),
    ensures
        bin_complete(b + t),
        bin_solid(b + t) == bin_solid(b),
        !is_ascii_stl(b) ==> !is_ascii_stl(b + t) && stl_accepts(b + t) && stl_spec(b + t)
            == stl_spec(b),
{
    let bt = b + t;
    assert forall|i: int| 0 <= i < b.len() implies bt[i] == b[i] by {}
    assert(triangle_count(bt) == triangle_count(b)) by {
        assert(bt[80] == b[80] && bt[81] == b[81] && bt[82] == b[82] && bt[83] == b[83]);
    }
    assert forall|k: int, i: int|
        0 <= k < triangle_count(bt) && 0 <= i < 48 implies #[trigger] bt[record_start(k) + i]
        == b[record_start(k) + i] by {
        assert(record_start(k) + i < b.len());
    }
    law_binary_ignores_header_and_attributes(bt, b);
    assert(bt.take(5) =~= b.take(5));
}

/// A named solid held at `p` reads back.
pub(crate) proof fn lemma_read_solid(s: Seq<char>, p: int, sm: SolidModel)
    requires
        holds_words(s, p, seq!["solid"@] + solid_rest_words(sm)),
        solid_ok(sm),
    ensures
        solid_spec(s, p) == Some(
            (
                Ok::<SolidModel, ParseErrorModel>(sm),
                p + lead(seq!["solid"@] + solid_rest_words(sm)).len(),
            ),
        ),
{
    lemma_keywords_valid();
    let name = sm.name.unwrap();
    let fs = sm.facets;
    let tail = seq!["endsolid"@] + seq![name];
    let r2 = facets_words(fs) + tail;
    let r1 = seq![name] + r2;
    lemma_holds_words_split(s, p, seq!["solid"@], r1);
    let p1 = p + lead(seq!["solid"@]).len();
    lemma_read_keyword(s, p, "solid"@);
    lemma_holds_words_split(s, p1, seq![name], r2);
    let p2 = p1 + lead(seq![name]).len();
    lemma_read_one(s, p1, name);
    lemma_holds_words_split(s, p2, facets_words(fs), tail);
    let p3 = p2 + lead(facets_words(fs)).len();
    assert(tail[0] == "endsolid"@);
    lemma_read_facets(s, p2, fs, tail);
    lemma_holds_words_split(s, p3, seq!["endsolid"@], seq![name]);
    let p4 = p3 + lead(seq!["endsolid"@]).len();
    lemma_read_keyword(s, p3, "endsolid"@);
    lemma_read_one(s, p4, name);
}

/// A solid whose text ends after its facets, held at `p` to the end of the
/// text, fails for want of `endsolid`.
pub(crate) proof fn lemma_read_cut_solid(s: Seq<char>, p: int, name: Seq<char>, fs: Seq<FacetModel>)
    requires
        holds_words(s, p, seq!["solid"@] + (seq![name] + facets_words(fs))),
        p + lead(seq!["solid"@] + (seq![name] + facets_words(fs))).len() == s.len(),
        forall|i: int| 0 <= i < fs.len() ==> facet_ok(#[trigger] fs[i]),
    ensures
        solid_spec(s, p) matches Some((r, _)) && r == Err::<SolidModel, ParseErrorModel>(
            ParseErrorModel::ExpectedWord { expected: "endsolid"@, actual: None },
        ),
{
    lemma_keywords_valid();
    let r2 = facets_words(fs) + Seq::<Seq<char>>::empty();
    assert(r2 =~= facets_words(fs));
    let r1 = seq![name] + facets_words(fs);
    lemma_holds_words_split(s, p, seq!["solid"@], r1);
    let p1 = p + lead(seq!["solid"@]).len();
    lemma_read_keyword(s, p, "solid"@);
    lemma_holds_words_split(s, p1, seq![name], facets_words(fs));
    let p2 = p1 + lead(seq![name]).len();
    lemma_read_one(s, p1, name);
    lemma_read_facets(s, p2, fs, Seq::<Seq<char>>::empty());
    let p3 = p2 + lead(facets_words(fs)).len();
    assert(p3 == s.len());
    law_take_word_is_next_run(s, p3);
}

/// A solid closed under another name, held at `p`, is not accepted.
pub(crate) proof fn lemma_read_misnamed_solid(
    s: Seq<char>,
    p: int,
    n1: Seq<char>,
    fs: Seq<FacetModel>,
    n2: Seq<char>,
)
    requires
        holds_words(
            s,
            p,
            seq!["solid"@] + (seq![n1] + (facets_words(fs) + (seq!["endsolid"@] + seq![n2]))),
        ),
        forall|i: int| 0 <= i < fs.len() ==> facet_ok(#[trigger] fs[i]),
        n1 != n2,
    ensures
        solid_spec(s, p) is None,
{
    lemma_keywords_valid();
    let tail = seq!["endsolid"@] + seq![n2];
    let r2 = facets_words(fs) + tail;
    let r1 = seq![n1] + r2;
    lemma_holds_words_split(s, p, seq!["solid"@], r1);
    let p1 = p + lead(seq!["solid"@]).len();
    lemma_read_keyword(s, p, "solid"@);
    lemma_holds_words_split(s, p1, seq![n1], r2);
    let p2 = p1 + lead(seq![n1]).len();
    lemma_read_one(s, p1, n1);
    lemma_holds_words_split(s, p2, facets_words(fs), tail);
    let p3 = p2 + lead(facets_words(fs)).len();
    assert(tail[0] == "endsolid"@);
    lemma_read_facets(s, p2, fs, tail);
    lemma_holds_words_split(s, p3, seq!["endsolid"@], seq![n2]);
    let p4 = p3 + lead(seq!["endsolid"@]).len();
    lemma_read_keyword(s, p3, "endsolid"@);
    lemma_read_one(s, p4, n2);
}

/// The facets stay within the text.
pub(crate) proof fn lemma_facets_range(s: Seq<char>, p: int)
    requires
        0 <= p <= s.len(),
    ensures
        p <= facets_spec(s, p).1 <= s.len(),
    decreases s.len() - p,
{
    if take_word_spec(s, p).0 == Some("facet"@) {
        crate::text::lemma_facet_range(s, p);
        if let (Ok(_), o) = facet_spec(s, p) {
            if 0 <= p < o <= s.len() {
                lemma_facets_range(s, o);
            }
        }
    }
}

} // verus!
