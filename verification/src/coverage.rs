//! What a successful parse has read: exactly the words of the value it gives.
use vstd::prelude::*;
use crate::laws::{
    all_white, coord_word, facet_words, facets_words, law_take_word_is_next_run, no_white,
    oloop_words, valid_word, vec3_words, vertex_words,
};
use crate::lexeme::is_white_space;
use crate::model::{CoordModel, FacetModel, ParseErrorModel, SolidModel, Vec3Model};
use crate::splitting::{joined, splits_as};
use crate::text::{
    expect_f32_spec, expect_word_spec, facet_spec, facets_spec, lemma_facet_range, oloop_spec,
    skip_ws, solid_spec, take_word_spec, three_f32_spec, vertex_spec,
};

verus! {

/// From `p`, successive words are `ws`, and the last one ends at `o`.
pub open spec fn walk(s: Seq<char>, p: int, ws: Seq<Seq<char>>, o: int) -> bool
    decreases ws.len(),
{
    if ws.len() == 0 {
        o == p
    } else {
        let (w, q) = take_word_spec(s, p);
        w == Some(ws[0]) && walk(s, q, ws.drop_first(), o)
    }
}

proof fn lemma_walk_concat(s: Seq<char>, p: int, a: Seq<Seq<char>>, q: int, b: Seq<Seq<char>>, o: int)
    requires
        walk(s, p, a, q),
        walk(s, q, b, o),
    ensures
        walk(s, p, a + b, o),
    decreases a.len(),
{
    if a.len() == 0 {
        assert(a + b =~= b);
    } else {
        let (w, r) = take_word_spec(s, p);
        lemma_walk_concat(s, r, a.drop_first(), q, b, o);
        assert((a + b).drop_first() =~= a.drop_first() + b);
    }
}

proof fn lemma_walk_one(s: Seq<char>, p: int, w: Seq<char>)
    requires
        take_word_spec(s, p).0 == Some(w),
    ensures
        walk(s, p, seq![w], take_word_spec(s, p).1),
{
    reveal_with_fuel(walk, 2);
    assert(seq![w].drop_first() =~= Seq::<Seq<char>>::empty());
}

/// A walk from `p` to `o` covers `s[p..o]`, which splits as the walked words
/// with no whitespace after the last one.
proof fn lemma_walk_splits(s: Seq<char>, p: int, ws: Seq<Seq<char>>, o: int) -> (gaps: Seq<Seq<char>>)
    requires
        0 <= p <= s.len(),
        walk(s, p, ws, o),
    ensures
        p <= o <= s.len(),
        splits_as(s.subrange(p, o), gaps, ws),
        gaps.last().len() == 0,
        ws.len() > 0 && p < s.len() && is_white_space(s[p]) ==> gaps[0].len() > 0,
    decreases ws.len(),
{
    if ws.len() == 0 {
        let gaps = seq![Seq::<char>::empty()];
        assert(s.subrange(p, o) =~= Seq::<char>::empty());
        assert forall|i: int| 0 <= i < gaps.len() implies all_white(#[trigger] gaps[i], 0, gaps[i].len() as int) by {}
        gaps
    } else {
        let (w, q) = take_word_spec(s, p);
        let word = ws[0];
        law_take_word_is_next_run(s, p);
        let j = q - word.len();
        let rest = ws.drop_first();
        let gs = lemma_walk_splits(s, q, rest, o);
        let g0 = s.subrange(p, j);
        let gaps = seq![g0] + gs;
        assert(gaps.drop_first() =~= gs);
        assert(ws =~= seq![word] + rest);
        assert(s.subrange(p, o) =~= g0 + word + s.subrange(q, o));
        assert(joined(gaps, ws) == g0 + word + joined(gs, rest));
        assert forall|i: int| 0 <= i < gaps.len() implies all_white(#[trigger] gaps[i], 0, gaps[i].len() as int) by {
            if i == 0 {
                assert forall|k: int| 0 <= k < g0.len() implies is_white_space(#[trigger] g0[k]) by {
                    assert(g0[k] == s[p + k]);
                }
            } else {
                assert(gaps[i] == gs[i - 1]);
            }
        }
        if rest.len() > 0 {
            // the next word follows whitespace
            law_take_word_is_next_run(s, q);
            assert(q < s.len());
        }
        assert forall|i: int| 0 < i < ws.len() implies (#[trigger] gaps[i]).len() > 0 by {
            assert(gaps[i] == gs[i - 1]);
        }
        assert forall|i: int| 0 <= i < ws.len() implies valid_word(#[trigger] ws[i]) by {
            if i == 0 {
                assert forall|k: int| 0 <= k < word.len() implies !is_white_space(#[trigger] word[k]) by {
                    assert(word[k] == s.subrange(j, q)[k]);
                    assert(s.subrange(j, q)[k] == s[j + k]);
                }
            } else {
                assert(ws[i] == rest[i - 1]);
            }
        }
        if p < s.len() && is_white_space(s[p]) {
            assert(p != j);
        }
        assert(gaps.last() == gs.last());
        gaps
    }
}

proof fn lemma_word_walk(s: Seq<char>, p: int, w: Seq<char>)
    ensures
        expect_word_spec(s, p, w) matches (Ok(_), o) ==> walk(s, p, seq![w], o),
{
    if expect_word_spec(s, p, w).0 is Ok {
        lemma_walk_one(s, p, w);
    }
}

proof fn lemma_f32_walk(s: Seq<char>, p: int)
    ensures
        expect_f32_spec(s, p) matches (Ok(c), o) ==> walk(s, p, seq![coord_word(c)], o),
{
    if let (Ok(c), o) = expect_f32_spec(s, p) {
        lemma_walk_one(s, p, coord_word(c));
    }
}

proof fn lemma_three_walk(s: Seq<char>, p: int)
    ensures
        three_f32_spec(s, p) matches (Ok(v), o) ==> walk(s, p, vec3_words(v), o),
{
    if let (Ok(x), p1) = expect_f32_spec(s, p) {
        if let (Ok(y), p2) = expect_f32_spec(s, p1) {
            if let (Ok(z), p3) = expect_f32_spec(s, p2) {
                lemma_f32_walk(s, p);
                lemma_f32_walk(s, p1);
                lemma_f32_walk(s, p2);
                lemma_walk_concat(s, p1, seq![coord_word(y)], p2, seq![coord_word(z)], p3);
                lemma_walk_concat(
                    s,
                    p,
                    seq![coord_word(x)],
                    p1,
                    seq![coord_word(y)] + seq![coord_word(z)],
                    p3,
                );
            }
        }
    }
}

proof fn lemma_vertex_walk(s: Seq<char>, p: int)
    ensures
        vertex_spec(s, p) matches (Ok(v), o) ==> walk(s, p, vertex_words(v), o),
{
    if let (Ok(_), p1) = expect_word_spec(s, p, "vertex"@) {
        if let (Ok(v), o) = three_f32_spec(s, p1) {
            lemma_word_walk(s, p, "vertex"@);
            lemma_three_walk(s, p1);
            lemma_walk_concat(s, p, seq!["vertex"@], p1, vec3_words(v), o);
        }
    }
}

proof fn lemma_oloop_walk(s: Seq<char>, p: int)
    ensures
        oloop_spec(s, p) matches (Ok(vs), o) ==> walk(s, p, oloop_words(vs.0, vs.1, vs.2), o),
{
    if let (Ok(_), p1) = expect_word_spec(s, p, "outer"@) {
        if let (Ok(_), p2) = expect_word_spec(s, p1, "loop"@) {
            if let (Ok(v1), p3) = vertex_spec(s, p2) {
                if let (Ok(v2), p4) = vertex_spec(s, p3) {
                    if let (Ok(v3), p5) = vertex_spec(s, p4) {
                        if let (Ok(_), p6) = expect_word_spec(s, p5, "endloop"@) {
                            lemma_word_walk(s, p, "outer"@);
                            lemma_word_walk(s, p1, "loop"@);
                            lemma_vertex_walk(s, p2);
                            lemma_vertex_walk(s, p3);
                            lemma_vertex_walk(s, p4);
                            lemma_word_walk(s, p5, "endloop"@);
                            let r3 = vertex_words(v3) + seq!["endloop"@];
                            let r2 = vertex_words(v2) + r3;
                            let r1 = vertex_words(v1) + r2;
                            lemma_walk_concat(s, p4, vertex_words(v3), p5, seq!["endloop"@], p6);
                            lemma_walk_concat(s, p3, vertex_words(v2), p4, r3, p6);
                            lemma_walk_concat(s, p2, vertex_words(v1), p3, r2, p6);
                            lemma_walk_concat(s, p1, seq!["loop"@], p2, r1, p6);
                            lemma_walk_concat(s, p, seq!["outer"@], p1, seq!["loop"@] + r1, p6);
                        }
                    }
                }
            }
        }
    }
}

proof fn lemma_facet_walk(s: Seq<char>, p: int)
    ensures
        facet_spec(s, p) matches (Ok(f), o) ==> walk(s, p, facet_words(f), o),
{
    if let (Ok(_), p1) = expect_word_spec(s, p, "facet"@) {
        if let (Ok(_), p2) = expect_word_spec(s, p1, "normal"@) {
            if let (Ok(n), p3) = three_f32_spec(s, p2) {
                if let (Ok(vs), p4) = oloop_spec(s, p3) {
                    if let (Ok(_), p5) = expect_word_spec(s, p4, "endfacet"@) {
                        lemma_word_walk(s, p, "facet"@);
                        lemma_word_walk(s, p1, "normal"@);
                        lemma_three_walk(s, p2);
                        lemma_oloop_walk(s, p3);
                        lemma_word_walk(s, p4, "endfacet"@);
                        let l = oloop_words(vs.0, vs.1, vs.2);
                        let r2 = l + seq!["endfacet"@];
                        let r1 = vec3_words(n) + r2;
                        lemma_walk_concat(s, p3, l, p4, seq!["endfacet"@], p5);
                        lemma_walk_concat(s, p2, vec3_words(n), p3, r2, p5);
                        lemma_walk_concat(s, p1, seq!["normal"@], p2, r1, p5);
                        lemma_walk_concat(s, p, seq!["facet"@], p1, seq!["normal"@] + r1, p5);
                        let f = FacetModel { normal: n, v1: vs.0, v2: vs.1, v3: vs.2 };
                        assert(facet_words(f) == seq!["facet"@] + (seq!["normal"@] + r1));
                    }
                }
            }
        }
    }
}

proof fn lemma_facets_walk(s: Seq<char>, p: int)
    requires
        0 <= p <= s.len(),
    ensures
        facets_spec(s, p) matches (Ok(fs), o) ==> walk(s, p, facets_words(fs), o),
    decreases s.len() - p,
{
    if take_word_spec(s, p).0 != Some("facet"@) {
        assert(facets_words(Seq::<FacetModel>::empty()) =~= Seq::<Seq<char>>::empty());
    } else {
        lemma_facet_range(s, p);
        if let (Ok(f), o) = facet_spec(s, p) {
            if 0 <= p < o <= s.len() {
                lemma_facet_walk(s, p);
                lemma_facets_walk(s, o);
                if let (Ok(fs), o2) = facets_spec(s, o) {
                    lemma_walk_concat(s, p, facet_words(f), o, facets_words(fs), o2);
                    let all = seq![f] + fs;
                    assert(all.drop_first() =~= fs);
                    assert(all[0] == f);
                    assert(facets_words(all) == facet_words(f) + facets_words(fs));
                }
            }
        }
    }
}

/// All the words of a named solid: `solid name`, its facets, `endsolid name`.
pub open spec fn solid_words(sm: SolidModel) -> Seq<Seq<char>> {
    let name = sm.name.unwrap();
    seq!["solid"@] + (seq![name] + (facets_words(sm.facets) + (seq!["endsolid"@] + seq![name])))
}

proof fn lemma_solid_walk(s: Seq<char>, p: int)
    requires
        0 <= p <= s.len(),
    ensures
        solid_spec(s, p) matches Some((Ok(sm), o)) ==> sm.name is Some && walk(
            s,
            p,
            solid_words(sm),
            o,
        ),
{
    if let (Ok(_), o1) = expect_word_spec(s, p, "solid"@) {
        let (name, o2) = take_word_spec(s, o1);
        crate::laws::law_expect_word_is_take_word(s, p, "solid"@);
        crate::text::lemma_take_word_range(s, p);
        crate::text::lemma_take_word_range(s, o1);
        lemma_facets_walk(s, o2);
        if let (Ok(fs), o3) = facets_spec(s, o2) {
            if let (Ok(_), o4) = expect_word_spec(s, o3, "endsolid"@) {
                if name is None {
                    // the text ended before the name: nothing follows
                    assert(o2 == s.len());
                    assert(take_word_spec(s, o2).0 is None);
                    assert(o3 == o2);
                    assert(take_word_spec(s, o3).0 is None);
                    assert(false);
                }
                let n = name.unwrap();
                lemma_word_walk(s, p, "solid"@);
                lemma_walk_one(s, o1, n);
                lemma_word_walk(s, o3, "endsolid"@);
                let (name2, o5) = take_word_spec(s, o4);
                if name == name2 {
                    lemma_walk_one(s, o4, n);
                    let t = seq!["endsolid"@] + seq![n];
                    lemma_walk_concat(s, o3, seq!["endsolid"@], o4, seq![n], o5);
                    lemma_walk_concat(s, o2, facets_words(fs), o3, t, o5);
                    lemma_walk_concat(s, o1, seq![n], o2, facets_words(fs) + t, o5);
                    lemma_walk_concat(s, p, seq!["solid"@], o1, seq![n] + (facets_words(fs) + t), o5);
                }
            }
        }
    }
}

/// A loop parse that succeeds has read exactly `outer loop`, its three
/// vertices and `endloop`, whatever whitespace separates them, and stops
/// right after `endloop`.
pub proof fn law_oloop_reads_exactly_its_words(s: Seq<char>, p: int)
    requires
        0 <= p <= s.len(),
    ensures
        oloop_spec(s, p) matches (Ok(vs), o) ==> exists|gaps: Seq<Seq<char>>|
            splits_as(s.subrange(p, o), gaps, oloop_words(vs.0, vs.1, vs.2)) && (
            #[trigger] gaps.last()).len() == 0,
{
    lemma_oloop_walk(s, p);
    if let (Ok(vs), o) = oloop_spec(s, p) {
        let gaps = lemma_walk_splits(s, p, oloop_words(vs.0, vs.1, vs.2), o);
        assert(gaps.last().len() == 0);
    }
}

/// A facet parse that succeeds has read exactly `facet normal x y z outer
/// loop`, three `vertex x y z`, `endloop endfacet`, with the facet's own
/// coordinate words, and stops right after `endfacet`.
pub proof fn law_facet_reads_exactly_its_words(s: Seq<char>, p: int)
    requires
        0 <= p <= s.len(),
    ensures
        facet_spec(s, p) matches (Ok(f), o) ==> exists|gaps: Seq<Seq<char>>|
            splits_as(s.subrange(p, o), gaps, facet_words(f)) && (#[trigger] gaps.last()).len()
                == 0,
{
    lemma_facet_walk(s, p);
    if let (Ok(f), o) = facet_spec(s, p) {
        let gaps = lemma_walk_splits(s, p, facet_words(f), o);
        assert(gaps.last().len() == 0);
    }
}

/// A solid parse that succeeds gives a named solid and has read exactly
/// `solid name`, its facets, `endsolid name`, and stops right after the
/// closing name.
pub proof fn law_solid_reads_exactly_its_words(s: Seq<char>, p: int)
    requires
        0 <= p <= s.len(),
    ensures
        solid_spec(s, p) matches Some((Ok(sm), o)) ==> sm.name is Some && exists|
            gaps: Seq<Seq<char>>,
        |
            splits_as(s.subrange(p, o), gaps, solid_words(sm)) && (#[trigger] gaps.last()).len()
                == 0,
{
    lemma_solid_walk(s, p);
    if let Some((Ok(sm), o)) = solid_spec(s, p) {
        let gaps = lemma_walk_splits(s, p, solid_words(sm), o);
        assert(gaps.last().len() == 0);
    }
}

/// One step of a word-by-word reading: a keyword that must come, or a number.
pub enum Slot {
    Key(Seq<char>),
    Num,
}

/// One slot read at `q`: the word read, or the error of that word.
pub open spec fn slot_step(s: Seq<char>, q: int, slot: Slot) -> (Result<Seq<char>, ParseErrorModel>, int) {
    match slot {
        Slot::Key(w) => match expect_word_spec(s, q, w) {
            (Ok(_), o) => (Ok(w), o),
            (Err(e), o) => (Err(e), o),
        },
        Slot::Num => match expect_f32_spec(s, q) {
            (Ok(c), o) => (Ok(coord_word(c)), o),
            (Err(e), o) => (Err(e), o),
        },
    }
}

/// The slots read one after the other from `q`; the first that fails stops
/// the reading with its error.
pub open spec fn run_slots(s: Seq<char>, q: int, slots: Seq<Slot>) -> (Result<Seq<Seq<char>>, ParseErrorModel>, int)
    decreases slots.len(),
{
    if slots.len() == 0 {
        (Ok(Seq::empty()), q)
    } else {
        match slot_step(s, q, slots[0]) {
            (Err(e), o) => (Err(e), o),
            (Ok(w), o) => match run_slots(s, o, slots.drop_first()) {
                (Ok(ws), o2) => (Ok(seq![w] + ws), o2),
                (Err(e), o2) => (Err(e), o2),
            },
        }
    }
}

/// Reading `b` after the result `r` of reading other slots.
pub open spec fn then_slots(
    r: (Result<Seq<Seq<char>>, ParseErrorModel>, int),
    s: Seq<char>,
    b: Seq<Slot>,
) -> (Result<Seq<Seq<char>>, ParseErrorModel>, int) {
    match r {
        (Err(e), o) => (Err(e), o),
        (Ok(x), o) => match run_slots(s, o, b) {
            (Ok(y), o2) => (Ok(x + y), o2),
            (Err(e), o2) => (Err(e), o2),
        },
    }
}

proof fn lemma_run_slots_concat(s: Seq<char>, q: int, a: Seq<Slot>, b: Seq<Slot>)
    ensures
        run_slots(s, q, a + b) == then_slots(run_slots(s, q, a), s, b),
    decreases a.len(),
{
    if a.len() == 0 {
        assert(a + b =~= b);
        if let (Ok(y), o2) = run_slots(s, q, b) {
            assert(Seq::<Seq<char>>::empty() + y =~= y);
        }
    } else {
        assert((a + b).drop_first() =~= a.drop_first() + b);
        assert((a + b)[0] == a[0]);
        if let (Ok(w), o) = slot_step(s, q, a[0]) {
            lemma_run_slots_concat(s, o, a.drop_first(), b);
            if let (Ok(x), o1) = run_slots(s, o, a.drop_first()) {
                if let (Ok(y), o2) = run_slots(s, o1, b) {
                    assert(seq![w] + x + y =~= seq![w] + (x + y));
                }
            }
        }
    }
}

proof fn lemma_run_one(s: Seq<char>, q: int, slot: Slot)
    ensures
        run_slots(s, q, seq![slot]) == (match slot_step(s, q, slot) {
            (Ok(w), o) => (Ok::<Seq<Seq<char>>, ParseErrorModel>(seq![w]), o),
            (Err(e), o) => (Err(e), o),
        }),
{
    reveal_with_fuel(run_slots, 2);
    assert(seq![slot].drop_first() =~= Seq::<Slot>::empty());
    if let (Ok(w), o) = slot_step(s, q, slot) {
        assert(seq![w] + Seq::<Seq<char>>::empty() =~= seq![w]);
    }
}

pub open spec fn three_slots() -> Seq<Slot> {
    seq![Slot::Num] + (seq![Slot::Num] + seq![Slot::Num])
}

pub open spec fn vertex_slots() -> Seq<Slot> {
    seq![Slot::Key("vertex"@)] + three_slots()
}

pub open spec fn oloop_slots() -> Seq<Slot> {
    seq![Slot::Key("outer"@)] + (seq![Slot::Key("loop"@)] + (vertex_slots() + (vertex_slots() + (
    vertex_slots() + seq![Slot::Key("endloop"@)]))))
}

pub open spec fn facet_slots() -> Seq<Slot> {
    seq![Slot::Key("facet"@)] + (seq![Slot::Key("normal"@)] + (three_slots() + (oloop_slots()
        + seq![Slot::Key("endfacet"@)])))
}

/// A result with the value turned into the words that give it.
pub open spec fn as_words<T>(r: (Result<T, ParseErrorModel>, int), words: spec_fn(T) -> Seq<Seq<char>>) -> (
    Result<Seq<Seq<char>>, ParseErrorModel>,
    int,
) {
    match r {
        (Ok(v), o) => (Ok(words(v)), o),
        (Err(e), o) => (Err(e), o),
    }
}

proof fn lemma_three_slots(s: Seq<char>, p: int)
    ensures
        as_words(three_f32_spec(s, p), |v: Vec3Model| vec3_words(v)) == run_slots(s, p, three_slots()),
{
    lemma_run_slots_concat(s, p, seq![Slot::Num], seq![Slot::Num] + seq![Slot::Num]);
    lemma_run_one(s, p, Slot::Num);
    if let (Ok(x), p1) = expect_f32_spec(s, p) {
        lemma_run_slots_concat(s, p1, seq![Slot::Num], seq![Slot::Num]);
        lemma_run_one(s, p1, Slot::Num);
        if let (Ok(y), p2) = expect_f32_spec(s, p1) {
            lemma_run_one(s, p2, Slot::Num);
        }
    }
}

proof fn lemma_vertex_slots(s: Seq<char>, p: int)
    ensures
        as_words(vertex_spec(s, p), |v: Vec3Model| vertex_words(v)) == run_slots(s, p, vertex_slots()),
{
    lemma_run_slots_concat(s, p, seq![Slot::Key("vertex"@)], three_slots());
    lemma_run_one(s, p, Slot::Key("vertex"@));
    if let (Ok(_), p1) = expect_word_spec(s, p, "vertex"@) {
        lemma_three_slots(s, p1);
    }
}

proof fn lemma_oloop_slots(s: Seq<char>, p: int)
    ensures
        as_words(oloop_spec(s, p), |vs: (Vec3Model, Vec3Model, Vec3Model)| oloop_words(vs.0, vs.1, vs.2))
            == run_slots(s, p, oloop_slots()),
{
    let ke = seq![Slot::Key("endloop"@)];
    let r3 = vertex_slots() + ke;
    let r2 = vertex_slots() + r3;
    let r1 = vertex_slots() + r2;
    let r0 = seq![Slot::Key("loop"@)] + r1;
    lemma_run_slots_concat(s, p, seq![Slot::Key("outer"@)], r0);
    lemma_run_one(s, p, Slot::Key("outer"@));
    if let (Ok(_), p1) = expect_word_spec(s, p, "outer"@) {
        lemma_run_slots_concat(s, p1, seq![Slot::Key("loop"@)], r1);
        lemma_run_one(s, p1, Slot::Key("loop"@));
        if let (Ok(_), p2) = expect_word_spec(s, p1, "loop"@) {
            lemma_run_slots_concat(s, p2, vertex_slots(), r2);
            lemma_vertex_slots(s, p2);
            if let (Ok(v1), p3) = vertex_spec(s, p2) {
                lemma_run_slots_concat(s, p3, vertex_slots(), r3);
                lemma_vertex_slots(s, p3);
                if let (Ok(v2), p4) = vertex_spec(s, p3) {
                    lemma_run_slots_concat(s, p4, vertex_slots(), ke);
                    lemma_vertex_slots(s, p4);
                    if let (Ok(v3), p5) = vertex_spec(s, p4) {
                        lemma_run_one(s, p5, Slot::Key("endloop"@));
                        let w3 = vertex_words(v3) + seq!["endloop"@];
                        let w2 = vertex_words(v2) + w3;
                        let w1 = vertex_words(v1) + w2;
                        assert(seq!["outer"@] + (seq!["loop"@] + w1) =~= oloop_words(v1, v2, v3));
                    }
                }
            }
        }
    }
}

proof fn lemma_facet_slots(s: Seq<char>, p: int)
    ensures
        as_words(facet_spec(s, p), |f: FacetModel| facet_words(f)) == run_slots(s, p, facet_slots()),
{
    let ke = seq![Slot::Key("endfacet"@)];
    let r2 = oloop_slots() + ke;
    let r1 = three_slots() + r2;
    let r0 = seq![Slot::Key("normal"@)] + r1;
    lemma_run_slots_concat(s, p, seq![Slot::Key("facet"@)], r0);
    lemma_run_one(s, p, Slot::Key("facet"@));
    if let (Ok(_), p1) = expect_word_spec(s, p, "facet"@) {
        lemma_run_slots_concat(s, p1, seq![Slot::Key("normal"@)], r1);
        lemma_run_one(s, p1, Slot::Key("normal"@));
        if let (Ok(_), p2) = expect_word_spec(s, p1, "normal"@) {
            lemma_run_slots_concat(s, p2, three_slots(), r2);
            lemma_three_slots(s, p2);
            if let (Ok(n), p3) = three_f32_spec(s, p2) {
                lemma_run_slots_concat(s, p3, oloop_slots(), ke);
                lemma_oloop_slots(s, p3);
                if let (Ok(vs), p4) = oloop_spec(s, p3) {
                    lemma_run_one(s, p4, Slot::Key("endfacet"@));
                    let f = FacetModel { normal: n, v1: vs.0, v2: vs.1, v3: vs.2 };
                    let w2 = oloop_words(vs.0, vs.1, vs.2) + seq!["endfacet"@];
                    assert(seq!["facet"@] + (seq!["normal"@] + (vec3_words(n) + w2)) =~= facet_words(f));
                }
            }
        }
    }
}

/// A facet parse is the word-by-word reading of `facet normal`, three
/// numbers, `outer loop`, three times `vertex` and three numbers, `endloop`,
/// `endfacet`: it fails with the error of the first word that does not fit,
/// stops where that reading stops, and on success gives the facet whose words
/// were read.
pub proof fn law_facet_is_its_slots(s: Seq<char>, p: int)
    ensures
        as_words(facet_spec(s, p), |f: FacetModel| facet_words(f)) == run_slots(s, p, facet_slots()),
{
    lemma_facet_slots(s, p);
}

/// A loop parse is the word-by-word reading of `outer loop`, three times
/// `vertex` and three numbers, `endloop`.
pub proof fn law_oloop_is_its_slots(s: Seq<char>, p: int)
    ensures
        as_words(oloop_spec(s, p), |vs: (Vec3Model, Vec3Model, Vec3Model)| oloop_words(vs.0, vs.1, vs.2))
            == run_slots(s, p, oloop_slots()),
{
    lemma_oloop_slots(s, p);
}

/// When the facets fail, the error is that of a facet that began at a word
/// `facet`, and the parser stops where that facet stopped.
pub proof fn law_facets_error_is_a_facet_error(s: Seq<char>, p: int)
    requires
        0 <= p <= s.len(),
    ensures
        facets_spec(s, p) matches (Err(e), o) ==> exists|q: int|
            p <= q <= s.len() && take_word_spec(s, q).0 == Some("facet"@) && #[trigger] facet_spec(
                s,
                q,
            ) == (Err::<FacetModel, ParseErrorModel>(e), o),
    decreases s.len() - p,
{
    if take_word_spec(s, p).0 == Some("facet"@) {
        lemma_facet_range(s, p);
        if let (Ok(f), o) = facet_spec(s, p) {
            if 0 <= p < o <= s.len() {
                law_facets_error_is_a_facet_error(s, o);
                if let (Err(e), o2) = facets_spec(s, o) {
                    let q = choose|q: int|
                        o <= q <= s.len() && take_word_spec(s, q).0 == Some("facet"@)
                            && #[trigger] facet_spec(s, q) == (Err::<FacetModel, ParseErrorModel>(e), o2);
                    assert(facet_spec(s, q) == (Err::<FacetModel, ParseErrorModel>(e), o2));
                }
            }
        } else {
            // the facet at `p` failed: `p` is the witness
            assert(facet_spec(s, p).0 is Err);
        }
    }
}

/// When a solid fails, the error is that of `solid` at the start, of a facet,
/// or of `endsolid` after the facets, and the parser stops where that step
/// stopped.
pub proof fn law_solid_error_source(s: Seq<char>, p: int)
    requires
        0 <= p <= s.len(),
    ensures
        solid_spec(s, p) matches Some((Err(e), o)) ==> {
            ||| expect_word_spec(s, p, "solid"@) == (Err::<(), ParseErrorModel>(e), o)
            ||| exists|q: int|
                p <= q <= s.len() && take_word_spec(s, q).0 == Some("facet"@) && #[trigger] facet_spec(
                    s,
                    q,
                ) == (Err::<FacetModel, ParseErrorModel>(e), o)
            ||| exists|q: int|
                p <= q <= s.len() && #[trigger] expect_word_spec(s, q, "endsolid"@) == (Err::<
                    (),
                    ParseErrorModel,
                >(e), o)
        },
{
    if let (Ok(_), o1) = expect_word_spec(s, p, "solid"@) {
        crate::text::lemma_expect_word_range(s, p, "solid"@);
        crate::text::lemma_take_word_range(s, o1);
        let o2 = take_word_spec(s, o1).1;
        law_facets_error_is_a_facet_error(s, o2);
        crate::laws::lemma_facets_range(s, o2);
        if let (Ok(_), o3) = facets_spec(s, o2) {
            if let (Err(e), o) = expect_word_spec(s, o3, "endsolid"@) {
                assert(expect_word_spec(s, o3, "endsolid"@) == (Err::<(), ParseErrorModel>(e), o));
            }
        }
    }
}

} // verus!
