//! A text as its words: whitespace gaps and words, alternating. What the
//! parser reads depends on the words alone.
use vstd::prelude::*;
use crate::laws::{
    all_valid, all_white, facet_ok, facet_words, facets_words, lemma_read_cut_solid, lemma_read_misnamed_solid, holds_words, law_take_word_reads_the_run, lead,
    lemma_holds_words_split, lemma_read_facet, lemma_read_oloop, lemma_read_solid, oloop_words,
    vec3_ok, no_white, solid_ok,
    solid_rest_words, valid_word,
};
use crate::lexeme::is_white_space;
use crate::model::{FacetModel, ParseErrorModel, SolidModel, Vec3Model};
use crate::text::{
    expect_f32_spec, expect_word_spec, facet_spec, facets_spec, lemma_facet_range, oloop_spec,
    skip_ws, solid_spec, take_word_spec, three_f32_spec, vertex_spec,
};

verus! {

/// `gaps[0] + ws[0] + gaps[1] + ws[1] + ... + ws[n - 1] + gaps[n]`.
pub open spec fn joined(gaps: Seq<Seq<char>>, ws: Seq<Seq<char>>) -> Seq<char>
    decreases ws.len(),
{
    if gaps.len() == 0 {
        Seq::empty()
    } else if ws.len() == 0 {
        gaps[0]
    } else {
        gaps[0] + ws[0] + joined(gaps.drop_first(), ws.drop_first())
    }
}

/// The text `t` is its words `ws` between the whitespace gaps `gaps`: the
/// gaps between two words are not empty, those at the ends may be. Such `ws`
/// are what `str::split_whitespace` gives of `t`.
pub open spec fn splits_as(t: Seq<char>, gaps: Seq<Seq<char>>, ws: Seq<Seq<char>>) -> bool {
    &&& gaps.len() == ws.len() + 1
    &&& forall|i: int| 0 <= i < gaps.len() ==> all_white(#[trigger] gaps[i], 0, gaps[i].len() as int)
    &&& forall|i: int| 0 < i < ws.len() ==> (#[trigger] gaps[i]).len() > 0
    &&& forall|i: int| 0 <= i < ws.len() ==> valid_word(#[trigger] ws[i])
    &&& t == joined(gaps, ws)
}

proof fn lemma_skip_ws_to_end(s: Seq<char>, i: int)
    requires
        0 <= i <= s.len(),
        all_white(s, i, s.len() as int),
    ensures
        skip_ws(s, i) == s.len(),
    decreases s.len() - i,
{
    if i < s.len() {
        lemma_skip_ws_to_end(s, i + 1);
    }
}

/// One `take_word` from a position whose rest of the text splits as `ws`:
/// the first word, and the rest splits as the other words; with no word
/// left, `None` and the end of the text, where nothing is left.
pub proof fn lemma_split_step(s: Seq<char>, off: int, gaps: Seq<Seq<char>>, ws: Seq<Seq<char>>)
    requires
        0 <= off <= s.len(),
        splits_as(s.skip(off), gaps, ws),
    ensures
        ws.len() > 0 ==> take_word_spec(s, off) == (Some(ws[0]), off + gaps[0].len() + ws[0].len()),
        ws.len() > 0 ==> off + gaps[0].len() + ws[0].len() <= s.len(),
        ws.len() > 0 ==> splits_as(
            s.skip(off + gaps[0].len() + ws[0].len()),
            gaps.drop_first(),
            ws.drop_first(),
        ),
        ws.len() == 0 ==> take_word_spec(s, off) == (None::<Seq<char>>, s.len() as int),
        ws.len() == 0 ==> splits_as(
            s.skip(s.len() as int),
            seq![Seq::<char>::empty()],
            Seq::<Seq<char>>::empty(),
        ),
{
    let t = s.skip(off);
    assert(s.skip(s.len() as int) =~= Seq::<char>::empty());
    let e0 = seq![Seq::<char>::empty()];
    assert(joined(e0, Seq::<Seq<char>>::empty()) =~= Seq::<char>::empty());
    assert forall|i: int| 0 <= i < e0.len() implies all_white(#[trigger] e0[i], 0, e0[i].len() as int) by {
    }
    if ws.len() == 0 {
        assert(t == gaps[0]);
        assert(all_white(gaps[0], 0, gaps[0].len() as int));
        assert forall|k: int| off <= k < s.len() implies is_white_space(#[trigger] s[k]) by {
            assert(s[k] == t[k - off]);
        }
        lemma_skip_ws_to_end(s, off);
    } else {
        let g = gaps[0];
        let w = ws[0];
        let gs = gaps.drop_first();
        let wr = ws.drop_first();
        let rest = joined(gs, wr);
        assert(t == g + w + rest);
        let j = off + g.len();
        let e = j + w.len();
        assert(all_white(g, 0, g.len() as int));
        assert(valid_word(w));
        assert forall|k: int| off <= k < j implies is_white_space(#[trigger] s[k]) by {
            assert(s[k] == t[k - off]);
            assert(t[k - off] == g[k - off]);
        }
        assert forall|k: int| j <= k < e implies !is_white_space(#[trigger] s[k]) by {
            assert(s[k] == t[k - off]);
            assert(t[k - off] == w[k - j]);
        }
        assert(t.len() == s.len() - off);
        assert(t.len() == g.len() + w.len() + rest.len());
        assert(s.skip(e) =~= rest) by {
            assert forall|k: int| 0 <= k < rest.len() implies s.skip(e)[k] == rest[k] by {
                assert(s[e + k] == t[e + k - off]);
                assert(t[g.len() + w.len() + k] == rest[k]);
            }
        }
        // the word ends the text or meets whitespace
        if e < s.len() {
            assert(rest.len() > 0);
            assert(gs[0] == gaps[1]);
            assert(all_white(gaps[1], 0, gaps[1].len() as int));
            if wr.len() > 0 {
                assert(gaps[1].len() > 0);
                assert(rest == gs[0] + wr[0] + joined(gs.drop_first(), wr.drop_first()));
            } else {
                assert(rest == gs[0]);
            }
            assert(rest[0] == gaps[1][0]);
            assert(s[e] == rest[0]);
        }
        assert(s.subrange(j, e) =~= w) by {
            assert forall|k: int| 0 <= k < w.len() implies s.subrange(j, e)[k] == w[k] by {
                assert(s[j + k] == t[j + k - off]);
            }
        }
        law_take_word_reads_the_run(s, off, j, e);
        // the rest splits as the other words
        assert forall|i: int| 0 <= i < gs.len() implies all_white(#[trigger] gs[i], 0, gs[i].len() as int) by {
            assert(gs[i] == gaps[i + 1]);
        }
        assert forall|i: int| 0 < i < wr.len() implies (#[trigger] gs[i]).len() > 0 by {
            assert(gs[i] == gaps[i + 1]);
        }
        assert forall|i: int| 0 <= i < wr.len() implies valid_word(#[trigger] wr[i]) by {
            assert(wr[i] == ws[i + 1]);
        }
    }
}

/// The words that `k` calls of `take_word` from `off` give, in order.
pub open spec fn reads(s: Seq<char>, off: int, k: nat) -> Seq<Option<Seq<char>>>
    decreases k,
{
    if k == 0 {
        Seq::empty()
    } else {
        let (w, o) = take_word_spec(s, off);
        seq![w] + reads(s, o, (k - 1) as nat)
    }
}

/// The words `ws`, then `None`, for `k` calls.
pub open spec fn listed(ws: Seq<Seq<char>>, k: nat) -> Seq<Option<Seq<char>>> {
    Seq::new(k, |i: int| if i < ws.len() { Some(ws[i]) } else { None })
}

/// Calls of `take_word` give the words of the text in order, then `None`
/// for ever.
pub proof fn law_take_word_lists_the_words(
    s: Seq<char>,
    off: int,
    gaps: Seq<Seq<char>>,
    ws: Seq<Seq<char>>,
    k: nat,
)
    requires
        0 <= off <= s.len(),
        splits_as(s.skip(off), gaps, ws),
    ensures
        reads(s, off, k) == listed(ws, k),
    decreases k,
{
    if k > 0 {
        lemma_split_step(s, off, gaps, ws);
        if ws.len() > 0 {
            let o = off + gaps[0].len() + ws[0].len();
            law_take_word_lists_the_words(s, o, gaps.drop_first(), ws.drop_first(), (k - 1) as nat);
            assert(reads(s, off, k) =~= listed(ws, k));
        } else {
            law_take_word_lists_the_words(
                s,
                s.len() as int,
                seq![Seq::<char>::empty()],
                Seq::<Seq<char>>::empty(),
                (k - 1) as nat,
            );
            assert(reads(s, off, k) =~= listed(ws, k));
        }
    }
}

/// Two parsers stand where the rests of their texts have the same words.
pub open spec fn same_words(
    s1: Seq<char>,
    o1: int,
    s2: Seq<char>,
    o2: int,
    g1: Seq<Seq<char>>,
    g2: Seq<Seq<char>>,
    ws: Seq<Seq<char>>,
) -> bool {
    &&& 0 <= o1 <= s1.len()
    &&& 0 <= o2 <= s2.len()
    &&& splits_as(s1.skip(o1), g1, ws)
    &&& splits_as(s2.skip(o2), g2, ws)
}

/// The gaps and words that the next `take_word` leaves.
pub open spec fn next_split(
    s: Seq<char>,
    gaps: Seq<Seq<char>>,
    ws: Seq<Seq<char>>,
) -> (Seq<Seq<char>>, Seq<Seq<char>>) {
    if ws.len() > 0 {
        (gaps.drop_first(), ws.drop_first())
    } else {
        (seq![Seq::<char>::empty()], Seq::<Seq<char>>::empty())
    }
}

proof fn lemma_take_word_same(
    s1: Seq<char>,
    o1: int,
    s2: Seq<char>,
    o2: int,
    g1: Seq<Seq<char>>,
    g2: Seq<Seq<char>>,
    ws: Seq<Seq<char>>,
)
    requires
        same_words(s1, o1, s2, o2, g1, g2, ws),
    ensures
        take_word_spec(s1, o1).0 == take_word_spec(s2, o2).0,
        take_word_spec(s1, o1).0 == (if ws.len() > 0 { Some(ws[0]) } else { None }),
        same_words(
            s1,
            take_word_spec(s1, o1).1,
            s2,
            take_word_spec(s2, o2).1,
            next_split(s1, g1, ws).0,
            next_split(s2, g2, ws).0,
            next_split(s1, g1, ws).1,
        ),
{
    lemma_split_step(s1, o1, g1, ws);
    lemma_split_step(s2, o2, g2, ws);
}

proof fn lemma_expect_word_same(
    s1: Seq<char>,
    o1: int,
    s2: Seq<char>,
    o2: int,
    g1: Seq<Seq<char>>,
    g2: Seq<Seq<char>>,
    ws: Seq<Seq<char>>,
    w: Seq<char>,
) -> (r: (Seq<Seq<char>>, Seq<Seq<char>>, Seq<Seq<char>>))
    requires
        same_words(s1, o1, s2, o2, g1, g2, ws),
    ensures
        expect_word_spec(s1, o1, w).0 == expect_word_spec(s2, o2, w).0,
        same_words(s1, expect_word_spec(s1, o1, w).1, s2, expect_word_spec(s2, o2, w).1, r.0, r.1, r.2),
{
    lemma_take_word_same(s1, o1, s2, o2, g1, g2, ws);
    let (n1, nw) = next_split(s1, g1, ws);
    let (n2, _) = next_split(s2, g2, ws);
    match take_word_spec(s1, o1).0 {
        Some(a) => if a == w {
            (n1, n2, nw)
        } else {
            (g1, g2, ws)
        },
        None => (n1, n2, nw),
    }
}

proof fn lemma_expect_f32_same(
    s1: Seq<char>,
    o1: int,
    s2: Seq<char>,
    o2: int,
    g1: Seq<Seq<char>>,
    g2: Seq<Seq<char>>,
    ws: Seq<Seq<char>>,
) -> (r: (Seq<Seq<char>>, Seq<Seq<char>>, Seq<Seq<char>>))
    requires
        same_words(s1, o1, s2, o2, g1, g2, ws),
    ensures
        expect_f32_spec(s1, o1).0 == expect_f32_spec(s2, o2).0,
        same_words(s1, expect_f32_spec(s1, o1).1, s2, expect_f32_spec(s2, o2).1, r.0, r.1, r.2),
{
    lemma_take_word_same(s1, o1, s2, o2, g1, g2, ws);
    (next_split(s1, g1, ws).0, next_split(s2, g2, ws).0, next_split(s1, g1, ws).1)
}

/// Three numbers read alike from two texts with the same words.
proof fn lemma_three_f32_same(
    s1: Seq<char>,
    o1: int,
    s2: Seq<char>,
    o2: int,
    g1: Seq<Seq<char>>,
    g2: Seq<Seq<char>>,
    ws: Seq<Seq<char>>,
) -> (r: (Seq<Seq<char>>, Seq<Seq<char>>, Seq<Seq<char>>))
    requires
        same_words(s1, o1, s2, o2, g1, g2, ws),
    ensures
        three_f32_spec(s1, o1).0 == three_f32_spec(s2, o2).0,
        same_words(s1, three_f32_spec(s1, o1).1, s2, three_f32_spec(s2, o2).1, r.0, r.1, r.2),
{
    let r0 = (g1, g2, ws);
    let r1 = lemma_expect_f32_same(s1, o1, s2, o2, r0.0, r0.1, r0.2);
    if expect_f32_spec(s1, o1).0 is Err {
        r1
    } else {
        let p1 = expect_f32_spec(s1, o1).1;
        let q1 = expect_f32_spec(s2, o2).1;
        let r2 = lemma_expect_f32_same(s1, p1, s2, q1, r1.0, r1.1, r1.2);
        if expect_f32_spec(s1, p1).0 is Err {
            r2
        } else {
            let p2 = expect_f32_spec(s1, p1).1;
            let q2 = expect_f32_spec(s2, q1).1;
            let r3 = lemma_expect_f32_same(s1, p2, s2, q2, r2.0, r2.1, r2.2);
            r3
        }
    }
}

/// A vertex reads alike from two texts with the same words.
proof fn lemma_vertex_same(
    s1: Seq<char>,
    o1: int,
    s2: Seq<char>,
    o2: int,
    g1: Seq<Seq<char>>,
    g2: Seq<Seq<char>>,
    ws: Seq<Seq<char>>,
) -> (r: (Seq<Seq<char>>, Seq<Seq<char>>, Seq<Seq<char>>))
    requires
        same_words(s1, o1, s2, o2, g1, g2, ws),
    ensures
        vertex_spec(s1, o1).0 == vertex_spec(s2, o2).0,
        same_words(s1, vertex_spec(s1, o1).1, s2, vertex_spec(s2, o2).1, r.0, r.1, r.2),
{
    let r0 = (g1, g2, ws);
    let r1 = lemma_expect_word_same(s1, o1, s2, o2, r0.0, r0.1, r0.2, "vertex"@);
    if expect_word_spec(s1, o1, "vertex"@).0 is Err {
        r1
    } else {
        let p1 = expect_word_spec(s1, o1, "vertex"@).1;
        let q1 = expect_word_spec(s2, o2, "vertex"@).1;
        let r2 = lemma_three_f32_same(s1, p1, s2, q1, r1.0, r1.1, r1.2);
        r2
    }
}

/// A loop reads alike from two texts with the same words.
proof fn lemma_oloop_same(
    s1: Seq<char>,
    o1: int,
    s2: Seq<char>,
    o2: int,
    g1: Seq<Seq<char>>,
    g2: Seq<Seq<char>>,
    ws: Seq<Seq<char>>,
) -> (r: (Seq<Seq<char>>, Seq<Seq<char>>, Seq<Seq<char>>))
    requires
        same_words(s1, o1, s2, o2, g1, g2, ws),
    ensures
        oloop_spec(s1, o1).0 == oloop_spec(s2, o2).0,
        same_words(s1, oloop_spec(s1, o1).1, s2, oloop_spec(s2, o2).1, r.0, r.1, r.2),
{
    let r0 = (g1, g2, ws);
    let r1 = lemma_expect_word_same(s1, o1, s2, o2, r0.0, r0.1, r0.2, "outer"@);
    if expect_word_spec(s1, o1, "outer"@).0 is Err {
        r1
    } else {
        let p1 = expect_word_spec(s1, o1, "outer"@).1;
        let q1 = expect_word_spec(s2, o2, "outer"@).1;
        let r2 = lemma_expect_word_same(s1, p1, s2, q1, r1.0, r1.1, r1.2, "loop"@);
        if expect_word_spec(s1, p1, "loop"@).0 is Err {
            r2
        } else {
            let p2 = expect_word_spec(s1, p1, "loop"@).1;
            let q2 = expect_word_spec(s2, q1, "loop"@).1;
            let r3 = lemma_vertex_same(s1, p2, s2, q2, r2.0, r2.1, r2.2);
            if vertex_spec(s1, p2).0 is Err {
                r3
            } else {
                let p3 = vertex_spec(s1, p2).1;
                let q3 = vertex_spec(s2, q2).1;
                let r4 = lemma_vertex_same(s1, p3, s2, q3, r3.0, r3.1, r3.2);
                if vertex_spec(s1, p3).0 is Err {
                    r4
                } else {
                    let p4 = vertex_spec(s1, p3).1;
                    let q4 = vertex_spec(s2, q3).1;
                    let r5 = lemma_vertex_same(s1, p4, s2, q4, r4.0, r4.1, r4.2);
                    if vertex_spec(s1, p4).0 is Err {
                        r5
                    } else {
                        let p5 = vertex_spec(s1, p4).1;
                        let q5 = vertex_spec(s2, q4).1;
                        let r6 = lemma_expect_word_same(s1, p5, s2, q5, r5.0, r5.1, r5.2, "endloop"@);
                        r6
                    }
                }
            }
        }
    }
}

/// A facet reads alike from two texts with the same words.
proof fn lemma_facet_same(
    s1: Seq<char>,
    o1: int,
    s2: Seq<char>,
    o2: int,
    g1: Seq<Seq<char>>,
    g2: Seq<Seq<char>>,
    ws: Seq<Seq<char>>,
) -> (r: (Seq<Seq<char>>, Seq<Seq<char>>, Seq<Seq<char>>))
    requires
        same_words(s1, o1, s2, o2, g1, g2, ws),
    ensures
        facet_spec(s1, o1).0 == facet_spec(s2, o2).0,
        same_words(s1, facet_spec(s1, o1).1, s2, facet_spec(s2, o2).1, r.0, r.1, r.2),
{
    let r0 = (g1, g2, ws);
    let r1 = lemma_expect_word_same(s1, o1, s2, o2, r0.0, r0.1, r0.2, "facet"@);
    if expect_word_spec(s1, o1, "facet"@).0 is Err {
        r1
    } else {
        let p1 = expect_word_spec(s1, o1, "facet"@).1;
        let q1 = expect_word_spec(s2, o2, "facet"@).1;
        let r2 = lemma_expect_word_same(s1, p1, s2, q1, r1.0, r1.1, r1.2, "normal"@);
        if expect_word_spec(s1, p1, "normal"@).0 is Err {
            r2
        } else {
            let p2 = expect_word_spec(s1, p1, "normal"@).1;
            let q2 = expect_word_spec(s2, q1, "normal"@).1;
            let r3 = lemma_three_f32_same(s1, p2, s2, q2, r2.0, r2.1, r2.2);
            if three_f32_spec(s1, p2).0 is Err {
                r3
            } else {
                let p3 = three_f32_spec(s1, p2).1;
                let q3 = three_f32_spec(s2, q2).1;
                let r4 = lemma_oloop_same(s1, p3, s2, q3, r3.0, r3.1, r3.2);
                if oloop_spec(s1, p3).0 is Err {
                    r4
                } else {
                    let p4 = oloop_spec(s1, p3).1;
                    let q4 = oloop_spec(s2, q3).1;
                    let r5 = lemma_expect_word_same(s1, p4, s2, q4, r4.0, r4.1, r4.2, "endfacet"@);
                    r5
                }
            }
        }
    }
}
/// `take_facet` gives the same result on two texts whose words from the
/// parsers' positions are the same, whatever whitespace separates them, and
/// leaves both parsers where the rests of the texts have the same words.
pub proof fn law_take_facet_reads_only_words(
    s1: Seq<char>,
    o1: int,
    g1: Seq<Seq<char>>,
    s2: Seq<char>,
    o2: int,
    g2: Seq<Seq<char>>,
    ws: Seq<Seq<char>>,
)
    requires
        0 <= o1 <= s1.len(),
        0 <= o2 <= s2.len(),
        splits_as(s1.skip(o1), g1, ws),
        splits_as(s2.skip(o2), g2, ws),
    ensures
        facet_spec(s1, o1).0 == facet_spec(s2, o2).0,
        exists|h1: Seq<Seq<char>>, h2: Seq<Seq<char>>, rest: Seq<Seq<char>>|
            splits_as(s1.skip(facet_spec(s1, o1).1), h1, rest) && splits_as(
                s2.skip(facet_spec(s2, o2).1),
                h2,
                rest,
            ),
{
    let r = lemma_facet_same(s1, o1, s2, o2, g1, g2, ws);
    assert(splits_as(s1.skip(facet_spec(s1, o1).1), r.0, r.2));
}

/// The facets that follow read alike from two texts with the same words.
proof fn lemma_facets_same(
    s1: Seq<char>,
    o1: int,
    s2: Seq<char>,
    o2: int,
    g1: Seq<Seq<char>>,
    g2: Seq<Seq<char>>,
    ws: Seq<Seq<char>>,
) -> (r: (Seq<Seq<char>>, Seq<Seq<char>>, Seq<Seq<char>>))
    requires
        same_words(s1, o1, s2, o2, g1, g2, ws),
    ensures
        facets_spec(s1, o1).0 == facets_spec(s2, o2).0,
        same_words(s1, facets_spec(s1, o1).1, s2, facets_spec(s2, o2).1, r.0, r.1, r.2),
    decreases s1.len() - o1,
{
    lemma_take_word_same(s1, o1, s2, o2, g1, g2, ws);
    if take_word_spec(s1, o1).0 != Some("facet"@) {
        (g1, g2, ws)
    } else {
        let r1 = lemma_facet_same(s1, o1, s2, o2, g1, g2, ws);
        lemma_facet_range(s1, o1);
        lemma_facet_range(s2, o2);
        if facet_spec(s1, o1).0 is Err {
            r1
        } else {
            let p1 = facet_spec(s1, o1).1;
            let q1 = facet_spec(s2, o2).1;
            let r2 = lemma_facets_same(s1, p1, s2, q1, r1.0, r1.1, r1.2);
            r2
        }
    }
}

/// A solid reads alike from two texts with the same words.
proof fn lemma_solid_same(
    s1: Seq<char>,
    o1: int,
    s2: Seq<char>,
    o2: int,
    g1: Seq<Seq<char>>,
    g2: Seq<Seq<char>>,
    ws: Seq<Seq<char>>,
)
    requires
        same_words(s1, o1, s2, o2, g1, g2, ws),
    ensures
        solid_spec(s1, o1) is Some <==> solid_spec(s2, o2) is Some,
        solid_spec(s1, o1) is Some ==> solid_spec(s1, o1).unwrap().0 == solid_spec(
            s2,
            o2,
        ).unwrap().0,
{
    let r1 = lemma_expect_word_same(s1, o1, s2, o2, g1, g2, ws, "solid"@);
    if expect_word_spec(s1, o1, "solid"@).0 is Ok {
        let p1 = expect_word_spec(s1, o1, "solid"@).1;
        let q1 = expect_word_spec(s2, o2, "solid"@).1;
        lemma_take_word_same(s1, p1, s2, q1, r1.0, r1.1, r1.2);
        let r2 = (
            next_split(s1, r1.0, r1.2).0,
            next_split(s2, r1.1, r1.2).0,
            next_split(s1, r1.0, r1.2).1,
        );
        let p2 = take_word_spec(s1, p1).1;
        let q2 = take_word_spec(s2, q1).1;
        let r3 = lemma_facets_same(s1, p2, s2, q2, r2.0, r2.1, r2.2);
        if facets_spec(s1, p2).0 is Ok {
            let p3 = facets_spec(s1, p2).1;
            let q3 = facets_spec(s2, q2).1;
            let r4 = lemma_expect_word_same(s1, p3, s2, q3, r3.0, r3.1, r3.2, "endsolid"@);
            if expect_word_spec(s1, p3, "endsolid"@).0 is Ok {
                let p4 = expect_word_spec(s1, p3, "endsolid"@).1;
                let q4 = expect_word_spec(s2, q3, "endsolid"@).1;
                lemma_take_word_same(s1, p4, s2, q4, r4.0, r4.1, r4.2);
            }
        }
    }
}

/// Single spaces before each word.
pub open spec fn space_gaps(n: nat) -> Seq<Seq<char>> {
    Seq::new(n + 1, |i: int| if i < n { seq![' '] } else { Seq::<char>::empty() })
}

proof fn lemma_lead_splits(ws: Seq<Seq<char>>)
    requires
        all_valid(ws),
    ensures
        splits_as(lead(ws), space_gaps(ws.len()), ws),
    decreases ws.len(),
{
    let g = space_gaps(ws.len());
    assert(is_white_space(' '));
    assert forall|i: int| 0 <= i < g.len() implies all_white(#[trigger] g[i], 0, g[i].len() as int) by {
        if i < ws.len() {
            assert(g[i] == seq![' ']);
        } else {
            assert(g[i] == Seq::<char>::empty());
        }
    }
    if ws.len() == 0 {
        assert(joined(g, ws) =~= Seq::<char>::empty());
    } else {
        let rest = ws.drop_first();
        assert(all_valid(rest)) by {
            assert forall|i: int| 0 <= i < rest.len() implies valid_word(#[trigger] rest[i]) by {
                assert(rest[i] == ws[i + 1]);
            }
        }
        lemma_lead_splits(rest);
        assert(g.drop_first() =~= space_gaps(rest.len()));
        assert(g[0] == seq![' ']);
    }
}

/// A text that splits as `ws` from `p` on, read again with single spaces.
proof fn lemma_spaced_copy(s: Seq<char>, p: int, gaps: Seq<Seq<char>>, ws: Seq<Seq<char>>)
    requires
        0 <= p <= s.len(),
        splits_as(s.skip(p), gaps, ws),
    ensures
        same_words(s, p, lead(ws), 0, gaps, space_gaps(ws.len()), ws),
        holds_words(lead(ws), 0, ws),
{
    lemma_lead_splits(ws);
    let t = lead(ws);
    assert(t.skip(0) =~= t);
    assert(t.subrange(0, t.len() as int) =~= t);
}

/// Any facet, written with any whitespace between its words, reads back:
/// wherever the words from `p` are those of the facet, then anything.
pub proof fn law_facet_reads_any_layout(
    s: Seq<char>,
    p: int,
    gaps: Seq<Seq<char>>,
    f: FacetModel,
    rest: Seq<Seq<char>>,
)
    requires
        0 <= p <= s.len(),
        splits_as(s.skip(p), gaps, facet_words(f) + rest),
        facet_ok(f),
    ensures
        facet_spec(s, p).0 == Ok::<FacetModel, ParseErrorModel>(f),
{
    let ws = facet_words(f) + rest;
    lemma_spaced_copy(s, p, gaps, ws);
    let t = lead(ws);
    lemma_holds_words_split(t, 0, facet_words(f), rest);
    lemma_read_facet(t, 0, f);
    lemma_facet_same(s, p, t, 0, gaps, space_gaps(ws.len()), ws);
}

/// Any named solid, written with any whitespace between its words, reads
/// back: wherever the words from `p` are those of the solid, then anything.
pub proof fn law_solid_reads_any_layout(
    s: Seq<char>,
    p: int,
    gaps: Seq<Seq<char>>,
    sm: SolidModel,
    rest: Seq<Seq<char>>,
)
    requires
        0 <= p <= s.len(),
        splits_as(s.skip(p), gaps, (seq!["solid"@] + solid_rest_words(sm)) + rest),
        solid_ok(sm),
    ensures
        solid_spec(s, p) matches Some((Ok(x), _)) && x == sm,
{
    let a = seq!["solid"@] + solid_rest_words(sm);
    let ws = a + rest;
    lemma_spaced_copy(s, p, gaps, ws);
    let t = lead(ws);
    lemma_holds_words_split(t, 0, a, rest);
    lemma_read_solid(t, 0, sm);
    lemma_solid_same(s, p, t, 0, gaps, space_gaps(ws.len()), ws);
}

/// Any loop, written with any whitespace between its words, reads back.
pub proof fn law_oloop_reads_any_layout(
    s: Seq<char>,
    p: int,
    gaps: Seq<Seq<char>>,
    v1: Vec3Model,
    v2: Vec3Model,
    v3: Vec3Model,
    rest: Seq<Seq<char>>,
)
    requires
        0 <= p <= s.len(),
        splits_as(s.skip(p), gaps, oloop_words(v1, v2, v3) + rest),
        vec3_ok(v1),
        vec3_ok(v2),
        vec3_ok(v3),
    ensures
        oloop_spec(s, p).0 == Ok::<(Vec3Model, Vec3Model, Vec3Model), ParseErrorModel>((v1, v2, v3)),
{
    let ws = oloop_words(v1, v2, v3) + rest;
    lemma_spaced_copy(s, p, gaps, ws);
    let t = lead(ws);
    lemma_holds_words_split(t, 0, oloop_words(v1, v2, v3), rest);
    lemma_read_oloop(t, 0, v1, v2, v3);
    lemma_oloop_same(s, p, t, 0, gaps, space_gaps(ws.len()), ws);
}

/// A solid whose text ends after its facets, with any whitespace between
/// its words, fails for want of `endsolid`: the text ended.
pub proof fn law_solid_cut_before_endsolid(
    s: Seq<char>,
    p: int,
    gaps: Seq<Seq<char>>,
    name: Seq<char>,
    fs: Seq<FacetModel>,
)
    requires
        0 <= p <= s.len(),
        splits_as(s.skip(p), gaps, seq!["solid"@] + (seq![name] + facets_words(fs))),
        forall|i: int| 0 <= i < fs.len() ==> facet_ok(#[trigger] fs[i]),
    ensures
        solid_spec(s, p) matches Some((r, _)) && r == Err::<SolidModel, ParseErrorModel>(
            ParseErrorModel::ExpectedWord { expected: "endsolid"@, actual: None },
        ),
{
    let ws = seq!["solid"@] + (seq![name] + facets_words(fs));
    lemma_spaced_copy(s, p, gaps, ws);
    let t = lead(ws);
    lemma_read_cut_solid(t, 0, name, fs);
    lemma_solid_same(s, p, t, 0, gaps, space_gaps(ws.len()), ws);
}

/// A solid closed under another name than it opened with, whatever the
/// whitespace between its words, is not accepted.
pub proof fn law_solid_names_must_match(
    s: Seq<char>,
    p: int,
    gaps: Seq<Seq<char>>,
    n1: Seq<char>,
    fs: Seq<FacetModel>,
    n2: Seq<char>,
    rest: Seq<Seq<char>>,
)
    requires
        0 <= p <= s.len(),
        splits_as(
            s.skip(p),
            gaps,
            (seq!["solid"@] + (seq![n1] + (facets_words(fs) + (seq!["endsolid"@] + seq![n2]))))
                + rest,
        ),
        forall|i: int| 0 <= i < fs.len() ==> facet_ok(#[trigger] fs[i]),
        n1 != n2,
    ensures
        solid_spec(s, p) is None,
{
    let a = seq!["solid"@] + (seq![n1] + (facets_words(fs) + (seq!["endsolid"@] + seq![n2])));
    let ws = a + rest;
    lemma_spaced_copy(s, p, gaps, ws);
    let t = lead(ws);
    lemma_holds_words_split(t, 0, a, rest);
    lemma_read_misnamed_solid(t, 0, n1, fs, n2);
    lemma_solid_same(s, p, t, 0, gaps, space_gaps(ws.len()), ws);
}

} // verus!
