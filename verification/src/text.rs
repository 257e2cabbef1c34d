//! The ASCII STL format: a text of whitespace-separated words.
//!
//! ```stl
//! solid name
//!   facet normal -1 0 0
//!     outer loop
//!       vertex 0 19.809 0.412201
//!       vertex 0 19.809 1.58778
//!       vertex 0 20 1
//!     endloop
//!   endfacet
//! endsolid name
//! ```
//!
//! Each step of the parser is stated by a spec function of the text and of
//! the character position where the step starts; it gives the step's result
//! and the position where the parser stands after it.
use vstd::prelude::*;
use crate::lexeme::{is_float_literal, is_float_word, is_white_space, is_whitespace};
use crate::model::{
    opt_str_view, result_view, Coord, CoordModel, Facet, FacetModel, ParseError, ParseErrorModel,
    Solid, SolidModel, Vec3, Vec3Model,
};
use crate::utf8_slice::{
    byte_offset, chars_of, lemma_byte_offset_split, lemma_byte_offset_step, str_eq, substr,
    utf8_width,
};

verus! {

/// The first position at or after `i` that holds no whitespace (or the end).
pub open spec fn skip_ws(s: Seq<char>, i: int) -> int
    decreases s.len() - i,
{
    if 0 <= i < s.len() && is_white_space(s[i]) {
        skip_ws(s, i + 1)
    } else {
        i
    }
}

/// The first position at or after `i` that holds whitespace (or the end).
pub open spec fn word_end(s: Seq<char>, i: int) -> int
    decreases s.len() - i,
{
    if 0 <= i < s.len() && !is_white_space(s[i]) {
        word_end(s, i + 1)
    } else {
        i
    }
}

/// The next word at or after `off`, and the position right after it; at the
/// end of the text, `None` and the end.
pub open spec fn take_word_spec(s: Seq<char>, off: int) -> (Option<Seq<char>>, int) {
    let j = skip_ws(s, off);
    if j < s.len() {
        let e = word_end(s, j);
        (Some(s.subrange(j, e)), e)
    } else {
        (None, j)
    }
}

/// The next word must be `w`. When another word stands there, the position
/// stays where it was.
pub open spec fn expect_word_spec(s: Seq<char>, off: int, w: Seq<char>) -> (
    Result<(), ParseErrorModel>,
    int,
) {
    let (t, o) = take_word_spec(s, off);
    match t {
        None => (Err(ParseErrorModel::ExpectedWord { expected: w, actual: None }), o),
        Some(a) => if a == w {
            (Ok(()), o)
        } else {
            (Err(ParseErrorModel::ExpectedWord { expected: w, actual: Some(a) }), off)
        },
    }
}

/// The next word must be a number.
pub open spec fn expect_f32_spec(s: Seq<char>, off: int) -> (Result<CoordModel, ParseErrorModel>, int) {
    let (t, o) = take_word_spec(s, off);
    match t {
        None => (Err(ParseErrorModel::ExpectedF32 { actual: None }), o),
        Some(a) => if is_float_literal(a) {
            (Ok(CoordModel::Text(a)), o)
        } else {
            (Err(ParseErrorModel::ExpectedF32 { actual: Some(a) }), o)
        },
    }
}

/// Three numbers.
pub open spec fn three_f32_spec(s: Seq<char>, off: int) -> (Result<Vec3Model, ParseErrorModel>, int) {
    match expect_f32_spec(s, off) {
        (Err(e), o) => (Err(e), o),
        (Ok(x), o1) => match expect_f32_spec(s, o1) {
            (Err(e), o) => (Err(e), o),
            (Ok(y), o2) => match expect_f32_spec(s, o2) {
                (Err(e), o) => (Err(e), o),
                (Ok(z), o3) => (Ok((x, y, z)), o3),
            },
        },
    }
}

/// `vertex x y z`
pub open spec fn vertex_spec(s: Seq<char>, off: int) -> (Result<Vec3Model, ParseErrorModel>, int) {
    match expect_word_spec(s, off, "vertex"@) {
        (Err(e), o) => (Err(e), o),
        (Ok(_), o) => three_f32_spec(s, o),
    }
}

/// `outer loop`, three vertices, `endloop`
pub open spec fn oloop_spec(s: Seq<char>, off: int) -> (
    Result<(Vec3Model, Vec3Model, Vec3Model), ParseErrorModel>,
    int,
) {
    match expect_word_spec(s, off, "outer"@) {
        (Err(e), o) => (Err(e), o),
        (Ok(_), o1) => match expect_word_spec(s, o1, "loop"@) {
            (Err(e), o) => (Err(e), o),
            (Ok(_), o2) => match vertex_spec(s, o2) {
                (Err(e), o) => (Err(e), o),
                (Ok(v1), o3) => match vertex_spec(s, o3) {
                    (Err(e), o) => (Err(e), o),
                    (Ok(v2), o4) => match vertex_spec(s, o4) {
                        (Err(e), o) => (Err(e), o),
                        (Ok(v3), o5) => match expect_word_spec(s, o5, "endloop"@) {
                            (Err(e), o) => (Err(e), o),
                            (Ok(_), o6) => (Ok((v1, v2, v3)), o6),
                        },
                    },
                },
            },
        },
    }
}

/// `facet normal x y z`, the loop, `endfacet`
pub open spec fn facet_spec(s: Seq<char>, off: int) -> (Result<FacetModel, ParseErrorModel>, int) {
    match expect_word_spec(s, off, "facet"@) {
        (Err(e), o) => (Err(e), o),
        (Ok(_), o1) => match expect_word_spec(s, o1, "normal"@) {
            (Err(e), o) => (Err(e), o),
            (Ok(_), o2) => match three_f32_spec(s, o2) {
                (Err(e), o) => (Err(e), o),
                (Ok(n), o3) => match oloop_spec(s, o3) {
                    (Err(e), o) => (Err(e), o),
                    (Ok(vs), o4) => match expect_word_spec(s, o4, "endfacet"@) {
                        (Err(e), o) => (Err(e), o),
                        (Ok(_), o5) => (
                            Ok(FacetModel { normal: n, v1: vs.0, v2: vs.1, v3: vs.2 }),
                            o5,
                        ),
                    },
                },
            },
        },
    }
}

/// The facets that follow `off`: while the next word is `facet`, one facet
/// more; the first facet that fails ends the list with its error.
pub open spec fn facets_spec(s: Seq<char>, off: int) -> (Result<Seq<FacetModel>, ParseErrorModel>, int)
    decreases s.len() - off,
{
    if take_word_spec(s, off).0 != Some("facet"@) {
        (Ok(Seq::empty()), off)
    } else {
        match facet_spec(s, off) {
            (Err(e), o) => (Err(e), o),
            (Ok(f), o) => if 0 <= off < o <= s.len() {
                match facets_spec(s, o) {
                    (Err(e), o2) => (Err(e), o2),
                    (Ok(fs), o2) => (Ok(seq![f] + fs), o2),
                }
            } else {
                (Ok(seq![f]), o)
            },
        }
    }
}

/// `solid name`, the facets, `endsolid name`. `None` where the two names
/// differ: such a text is not a solid.
pub open spec fn solid_spec(s: Seq<char>, off: int) -> Option<(Result<SolidModel, ParseErrorModel>, int)> {
    match expect_word_spec(s, off, "solid"@) {
        (Err(e), o) => Some((Err(e), o)),
        (Ok(_), o1) => {
            let (name, o2) = take_word_spec(s, o1);
            match facets_spec(s, o2) {
                (Err(e), o) => Some((Err(e), o)),
                (Ok(fs), o3) => match expect_word_spec(s, o3, "endsolid"@) {
                    (Err(e), o) => Some((Err(e), o)),
                    (Ok(_), o4) => {
                        let (name2, o5) = take_word_spec(s, o4);
                        if name == name2 {
                            Some((Ok(SolidModel { name, facets: fs }), o5))
                        } else {
                            None
                        }
                    },
                },
            }
        },
    }
}


proof fn lemma_skip_ws_range(s: Seq<char>, i: int)
    requires
        0 <= i <= s.len(),
    ensures
        i <= skip_ws(s, i) <= s.len(),
        skip_ws(s, i) < s.len() ==> !is_white_space(s[skip_ws(s, i)]),
    decreases s.len() - i,
{
    if i < s.len() && is_white_space(s[i]) {
        lemma_skip_ws_range(s, i + 1);
    }
}

proof fn lemma_word_end_range(s: Seq<char>, i: int)
    requires
        0 <= i <= s.len(),
    ensures
        i <= word_end(s, i) <= s.len(),
        i < s.len() && !is_white_space(s[i]) ==> i < word_end(s, i),
    decreases s.len() - i,
{
    if i < s.len() && !is_white_space(s[i]) {
        lemma_word_end_range(s, i + 1);
    }
}

/// A word step stays within the text, and moves forward past any word it takes.
pub proof fn lemma_take_word_range(s: Seq<char>, off: int)
    requires
        0 <= off <= s.len(),
    ensures
        off <= take_word_spec(s, off).1 <= s.len(),
        take_word_spec(s, off).0 is Some ==> off < take_word_spec(s, off).1,
{
    lemma_skip_ws_range(s, off);
    let j = skip_ws(s, off);
    if j < s.len() {
        lemma_word_end_range(s, j);
    }
}

pub proof fn lemma_expect_word_range(s: Seq<char>, off: int, w: Seq<char>)
    requires
        0 <= off <= s.len(),
    ensures
        off <= expect_word_spec(s, off, w).1 <= s.len(),
        expect_word_spec(s, off, w).0 is Ok ==> off < expect_word_spec(s, off, w).1,
{
    lemma_take_word_range(s, off);
}

pub proof fn lemma_expect_f32_range(s: Seq<char>, off: int)
    requires
        0 <= off <= s.len(),
    ensures
        off <= expect_f32_spec(s, off).1 <= s.len(),
{
    lemma_take_word_range(s, off);
}

pub proof fn lemma_three_f32_range(s: Seq<char>, off: int)
    requires
        0 <= off <= s.len(),
    ensures
        off <= three_f32_spec(s, off).1 <= s.len(),
{
    lemma_expect_f32_range(s, off);
    let o1 = expect_f32_spec(s, off).1;
    lemma_expect_f32_range(s, o1);
    let o2 = expect_f32_spec(s, o1).1;
    lemma_expect_f32_range(s, o2);
}

pub proof fn lemma_vertex_range(s: Seq<char>, off: int)
    requires
        0 <= off <= s.len(),
    ensures
        off <= vertex_spec(s, off).1 <= s.len(),
{
    lemma_expect_word_range(s, off, "vertex"@);
    lemma_three_f32_range(s, expect_word_spec(s, off, "vertex"@).1);
}

pub proof fn lemma_oloop_range(s: Seq<char>, off: int)
    requires
        0 <= off <= s.len(),
    ensures
        off <= oloop_spec(s, off).1 <= s.len(),
{
    lemma_expect_word_range(s, off, "outer"@);
    let o1 = expect_word_spec(s, off, "outer"@).1;
    lemma_expect_word_range(s, o1, "loop"@);
    let o2 = expect_word_spec(s, o1, "loop"@).1;
    lemma_vertex_range(s, o2);
    let o3 = vertex_spec(s, o2).1;
    lemma_vertex_range(s, o3);
    let o4 = vertex_spec(s, o3).1;
    lemma_vertex_range(s, o4);
    let o5 = vertex_spec(s, o4).1;
    lemma_expect_word_range(s, o5, "endloop"@);
}

/// A facet step stays within the text, and moves forward when it succeeds.
pub proof fn lemma_facet_range(s: Seq<char>, off: int)
    requires
        0 <= off <= s.len(),
    ensures
        off <= facet_spec(s, off).1 <= s.len(),
        facet_spec(s, off).0 is Ok ==> off < facet_spec(s, off).1,
{
    lemma_expect_word_range(s, off, "facet"@);
    let o1 = expect_word_spec(s, off, "facet"@).1;
    lemma_expect_word_range(s, o1, "normal"@);
    let o2 = expect_word_spec(s, o1, "normal"@).1;
    lemma_three_f32_range(s, o2);
    let o3 = three_f32_spec(s, o2).1;
    lemma_oloop_range(s, o3);
    let o4 = oloop_spec(s, o3).1;
    lemma_expect_word_range(s, o4, "endfacet"@);
}

/// A character position of the text, with its byte offset.
#[derive(Clone, Copy, Debug)]
struct Cursor {
    at: usize,
    byte: usize,
}

/// A parser of ASCII STL that reads `content` word by word.
#[derive(Debug)]
pub struct StrParser<'a> {
    content: &'a str,
    chars: Vec<char>,
    cursor: Cursor,
}

impl<'a> StrParser<'a> {
    #[verifier::type_invariant]
    spec fn inv(self) -> bool {
        &&& self.chars@ == self.content@
        &&& self.cursor.at <= self.chars@.len()
        &&& self.cursor.byte == byte_offset(self.content@, self.cursor.at as int)
        &&& byte_offset(self.content@, self.content@.len() as int) <= usize::MAX
    }

    /// The text being parsed.
    pub closed spec fn text(&self) -> Seq<char> {
        self.content@
    }

    /// The character position where the parser stands.
    pub closed spec fn pos(&self) -> int {
        self.cursor.at as int
    }

    /// The parser stands within its text.
    pub fn pos_in_text(&self)
        ensures
            0 <= self.pos() <= self.text().len(),
    {
        proof {
            use_type_invariant(self);
        }
    }

    /// A parser at the start of `content`.
    pub fn new(content: &'a str) -> (p: Self)
        ensures
            p.text() == content@,
            p.pos() == 0,
    {
        let chars = chars_of(content);
        let bytes = content.as_bytes();
        proof {
            let s = content@;
            assert(s.take(s.len() as int) =~= s);
            assert(s.take(0) =~= Seq::<char>::empty());
            assert(bytes@.len() == bytes.len());
        }
        StrParser { content, chars, cursor: Cursor { at: 0, byte: 0 } }
    }

    /// Skips whitespace and takes the next word; `None` at the end of the text.
    pub fn take_word(&mut self) -> (w: Option<&'a str>)
        ensures
            final(self).text() == old(self).text(),
            (opt_str_view(w), final(self).pos()) == take_word_spec(old(self).text(), old(self).pos()),
    {
        proof {
            use_type_invariant(&*self);
        }
        let ghost s = self.content@;
        let n = self.chars.len();
        let mut at = self.cursor.at;
        let mut byte = self.cursor.byte;
        while at < n && is_whitespace(self.chars[at])
            invariant
                s == self.content@,
                self.chars@ == s,
                n == s.len(),
                old(self).cursor.at <= at <= n,
                byte == byte_offset(s, at as int),
                byte_offset(s, s.len() as int) <= usize::MAX,
                skip_ws(s, old(self).cursor.at as int) == skip_ws(s, at as int),
            decreases n - at,
        {
            proof {
                lemma_byte_offset_step(s, at as int);
                lemma_byte_offset_split(s, at + 1);
                lemma_byte_offset_split(s, s.len() as int);
                assert(s.take(s.len() as int) =~= s);
            }
            byte = byte + utf8_width(self.chars[at]);
            at = at + 1;
        }
        if at == n {
            self.cursor = Cursor { at, byte };
            return None;
        }
        let start_at = at;
        let start_byte = byte;
        while at < n && !is_whitespace(self.chars[at])
            invariant
                s == self.content@,
                self.chars@ == s,
                n == s.len(),
                start_at <= at <= n,
                byte == byte_offset(s, at as int),
                byte_offset(s, s.len() as int) <= usize::MAX,
                word_end(s, start_at as int) == word_end(s, at as int),
            decreases n - at,
        {
            proof {
                lemma_byte_offset_step(s, at as int);
                lemma_byte_offset_split(s, at + 1);
                lemma_byte_offset_split(s, s.len() as int);
                assert(s.take(s.len() as int) =~= s);
            }
            byte = byte + utf8_width(self.chars[at]);
            at = at + 1;
        }
        self.cursor = Cursor { at, byte };
        Some(substr(self.content, start_byte, byte, Ghost(start_at as int), Ghost(at as int)))
    }

    /// The next word must be `word`. Where another word stands there, the
    /// parser is left where it was.
    pub fn expect_word(&mut self, word: &str) -> (r: Result<(), ParseError>)
        ensures
            final(self).text() == old(self).text(),
            (result_view(r), final(self).pos()) == expect_word_spec(
                old(self).text(),
                old(self).pos(),
                word@,
            ),
    {
        proof {
            use_type_invariant(&*self);
        }
        let start = self.cursor;
        let actual = match self.take_word() {
            Some(a) => a,
            None => {
                return Err(ParseError::ExpectedWord { expected: word.to_owned(), actual: None });
            },
        };
        if str_eq(actual, word) {
            Ok(())
        } else {
            let actual = actual.to_owned();
            proof {
                use_type_invariant(&*self);
            }
            // untake the word
            self.cursor = start;
            Err(ParseError::ExpectedWord { expected: word.to_owned(), actual: Some(actual) })
        }
    }

    /// The next word must be a number; it is returned as written.
    pub fn expect_f32(&mut self) -> (r: Result<Coord, ParseError>)
        ensures
            final(self).text() == old(self).text(),
            (result_view(r), final(self).pos()) == expect_f32_spec(old(self).text(), old(self).pos()),
    {
        let word = match self.take_word() {
            Some(w) => w,
            None => {
                return Err(ParseError::ExpectedF32 { actual: None });
            },
        };
        let chars = chars_of(word);
        if is_float_word(chars.as_slice()) {
            Ok(Coord::Text(word.to_owned()))
        } else {
            Err(ParseError::ExpectedF32 { actual: Some(word.to_owned()) })
        }
    }

    /// ```stl
    /// vertex 0 19.809 0.412201
    /// ```
    pub fn take_vertex(&mut self) -> (r: Result<Vec3, ParseError>)
        ensures
            final(self).text() == old(self).text(),
            (result_view(r), final(self).pos()) == vertex_spec(old(self).text(), old(self).pos()),
    {
        self.expect_word("vertex")?;

        let x = self.expect_f32()?;
        let y = self.expect_f32()?;
        let z = self.expect_f32()?;

        Ok((x, y, z))
    }

    /// ```stl
    /// outer loop
    ///   vertex 0 19.809 0.412201
    ///   vertex 0 19.809 1.58778
    ///   vertex 0 20 1
    /// endloop
    /// ```
    pub fn take_oloop(&mut self) -> (r: Result<(Vec3, Vec3, Vec3), ParseError>)
        ensures
            final(self).text() == old(self).text(),
            (result_view(r), final(self).pos()) == oloop_spec(old(self).text(), old(self).pos()),
    {
        self.expect_word("outer")?;
        self.expect_word("loop")?;

        let v1 = self.take_vertex()?;
        let v2 = self.take_vertex()?;
        let v3 = self.take_vertex()?;

        self.expect_word("endloop")?;

        Ok((v1, v2, v3))
    }

    /// ```stl
    /// facet normal -1 0 0
    ///   outer loop
    ///     vertex 0 19.809 0.412201
    ///     vertex 0 19.809 1.58778
    ///     vertex 0 20 1
    ///   endloop
    /// endfacet
    /// ```
    pub fn take_facet(&mut self) -> (r: Result<Facet, ParseError>)
        ensures
            final(self).text() == old(self).text(),
            (result_view(r), final(self).pos()) == facet_spec(old(self).text(), old(self).pos()),
    {
        self.expect_word("facet")?;
        self.expect_word("normal")?;

        let x = self.expect_f32()?;
        let y = self.expect_f32()?;
        let z = self.expect_f32()?;

        let (v1, v2, v3) = self.take_oloop()?;

        self.expect_word("endfacet")?;

        Ok(Facet { normal: (x, y, z), v1, v2, v3 })
    }

    /// The next word, put back: the parser does not move.
    fn next_is_facet(&mut self) -> (b: bool)
        ensures
            final(self).text() == old(self).text(),
            final(self).pos() == old(self).pos(),
            b == (take_word_spec(old(self).text(), old(self).pos()).0 == Some("facet"@)),
    {
        proof {
            use_type_invariant(&*self);
        }
        let offset = self.cursor;
        let word = self.take_word();
        let b = match word {
            Some(w) => str_eq(w, "facet"),
            None => false,
        };
        proof {
            use_type_invariant(&*self);
        }
        self.offset_restore(offset);
        b
    }

    /// ```stl
    /// solid name
    ///   facet ...
    ///   ...
    /// endsolid name
    /// ```
    /// Where the closing name is not the opening one, `None`: the text is
    /// not a solid, and the parser stands after the closing name.
    pub fn try_take_solid(&mut self) -> (r: Option<Result<Solid, ParseError>>)
        ensures
            final(self).text() == old(self).text(),
            match r {
                Some(x) => solid_spec(old(self).text(), old(self).pos()) == Some(
                    (result_view(x), final(self).pos()),
                ),
                None => solid_spec(old(self).text(), old(self).pos()) is None,
            },
    {
        proof {
            use_type_invariant(&*self);
        }
        let ghost s = self.text();
        if let Err(e) = self.expect_word("solid") {
            return Some(Err(e));
        }
        let ghost o1 = self.pos();
        let name = match self.take_word() {
            Some(w) => Some(w.to_owned()),
            None => None,
        };
        proof {
            use_type_invariant(&*self);
        }
        let ghost o2 = self.pos();
        let mut facets: Vec<Facet> = Vec::new();
        loop
            invariant_except_break
                s == old(self).text(),
                expect_word_spec(s, old(self).pos(), "solid"@) == (Ok::<(), ParseErrorModel>(()), o1),
                take_word_spec(s, o1).1 == o2,
                self.text() == s,
                0 <= self.pos() <= s.len(),
                facets_spec(s, o2) == prepend_facets(facets_view(facets@), facets_spec(s, self.pos())),
            ensures
                self.text() == s,
                0 <= self.pos() <= s.len(),
                facets_spec(s, o2) == (Ok::<Seq<FacetModel>, ParseErrorModel>(facets_view(facets@)), self.pos()),
            decreases s.len() - self.pos(),
        {
            let ghost p = self.pos();
            if !self.next_is_facet() {
                assert(facets_view(facets@) + Seq::<FacetModel>::empty() =~= facets_view(facets@));
                break;
            }
            proof {
                lemma_facet_range(s, p);
            }
            let f = match self.take_facet() {
                Ok(f) => f,
                Err(e) => {
                    return Some(Err(e));
                },
            };
            proof {
                use_type_invariant(&*self);
            }
            let ghost before = facets_view(facets@);
            facets.push(f);
            proof {
                assert(facets_view(facets@) =~= before.push(f@));
                match facets_spec(s, self.pos()) {
                    (Ok(fs), _) => {
                        assert(before + (seq![f@] + fs) =~= facets_view(facets@) + fs);
                    },
                    _ => {},
                }
            }
        }
        if let Err(e) = self.expect_word("endsolid") {
            return Some(Err(e));
        }
        let name2 = self.take_word();
        let same = match (&name, name2) {
            (Some(a), Some(b)) => str_eq(a.as_str(), b),
            (None, None) => true,
            _ => false,
        };
        if same {
            Some(Ok(Solid { name, facets }))
        } else {
            None
        }
    }

    /// ```stl
    /// solid name
    ///   facet ...
    ///   ...
    /// endsolid name
    /// ```
    /// The two names must be the same word: the parser accepts no text on which
    /// they differ.
    pub fn take_solid(&mut self) -> (r: Result<Solid, ParseError>)
        requires
            solid_spec(old(self).text(), old(self).pos()) is Some,
        ensures
            final(self).text() == old(self).text(),
            Some((result_view(r), final(self).pos())) == solid_spec(
                old(self).text(),
                old(self).pos(),
            ),
    {
        match self.try_take_solid() {
            Some(r) => r,
            None => {
                proof {
                    assert(false);
                }
                Err(ParseError::ExpectedWord { expected: "endsolid".to_owned(), actual: None })
            },
        }
    }

    fn offset_restore(&mut self, c: Cursor)
        requires
            c.at <= old(self).chars@.len(),
            c.byte == byte_offset(old(self).content@, c.at as int),
        ensures
            final(self).text() == old(self).text(),
            final(self).pos() == c.at,
    {
        proof {
            use_type_invariant(&*self);
        }
        self.cursor = c;
    }
}

impl<'a> Clone for StrParser<'a> {
    /// A parser over the same text, at the same position.
    fn clone(&self) -> (r: Self)
        ensures
            r.text() == self.text(),
            r.pos() == self.pos(),
    {
        proof {
            use_type_invariant(self);
        }
        StrParser { content: self.content, chars: chars_of(self.content), cursor: self.cursor }
    }
}

/// Models of a list of facets.
pub open spec fn facets_view(v: Seq<Facet>) -> Seq<FacetModel> {
    v.map_values(|f: Facet| f@)
}

/// The facets `prefix`, then those of the result `r`.
pub open spec fn prepend_facets(
    prefix: Seq<FacetModel>,
    r: (Result<Seq<FacetModel>, ParseErrorModel>, int),
) -> (Result<Seq<FacetModel>, ParseErrorModel>, int) {
    match r {
        (Ok(fs), o) => (Ok(prefix + fs), o),
        (Err(e), o) => (Err(e), o),
    }
}

} // verus!
