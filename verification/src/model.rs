//! The values a parse produces, and their mathematical models.
use vstd::prelude::*;

verus! {

/// One coordinate of a vector, as the file holds it: the decimal word of an
/// ASCII file (a word that `str::parse::<f32>` accepts), or the IEEE-754 bit
/// pattern of a binary file (what `f32::from_bits` turns into the number).
#[derive(Debug)]
pub enum Coord {
    Text(String),
    Bits(u32),
}

/// A vector of three coordinates.
pub type Vec3 = (Coord, Coord, Coord);

/// A triangle: its normal and its three vertices.
#[derive(Debug)]
pub struct Facet {
    pub normal: Vec3,
    pub v1: Vec3,
    pub v2: Vec3,
    pub v3: Vec3,
}

/// A named (ASCII) or unnamed (binary) list of facets.
#[derive(Debug)]
pub struct Solid {
    pub name: Option<String>,
    pub facets: Vec<Facet>,
}

/// Why an ASCII file was refused.
#[derive(Debug)]
pub enum ParseError {
    /// A keyword was expected; `actual` is the word found, `None` at the end
    /// of the text.
    ExpectedWord { expected: String, actual: Option<String> },
    /// A number was expected; `actual` is the word found, `None` at the end
    /// of the text.
    ExpectedF32 { actual: Option<String> },
}

/// Model of [`Coord`].
pub enum CoordModel {
    Text(Seq<char>),
    Bits(u32),
}

pub type Vec3Model = (CoordModel, CoordModel, CoordModel);

/// Model of [`Facet`].
pub struct FacetModel {
    pub normal: Vec3Model,
    pub v1: Vec3Model,
    pub v2: Vec3Model,
    pub v3: Vec3Model,
}

/// Model of [`Solid`].
pub struct SolidModel {
    pub name: Option<Seq<char>>,
    pub facets: Seq<FacetModel>,
}

/// Model of [`ParseError`].
pub enum ParseErrorModel {
    ExpectedWord { expected: Seq<char>, actual: Option<Seq<char>> },
    ExpectedF32 { actual: Option<Seq<char>> },
}

pub open spec fn opt_string_view(o: Option<String>) -> Option<Seq<char>> {
    match o {
        Some(s) => Some(s@),
        None => None,
    }
}

pub open spec fn opt_str_view(o: Option<&str>) -> Option<Seq<char>> {
    match o {
        Some(s) => Some(s@),
        None => None,
    }
}

impl View for Coord {
    type V = CoordModel;

    open spec fn view(&self) -> CoordModel {
        match self {
            Coord::Text(s) => CoordModel::Text(s@),
            Coord::Bits(b) => CoordModel::Bits(*b),
        }
    }
}

impl View for Facet {
    type V = FacetModel;

    open spec fn view(&self) -> FacetModel {
        FacetModel {
            normal: self.normal@,
            v1: self.v1@,
            v2: self.v2@,
            v3: self.v3@,
        }
    }
}

impl View for Solid {
    type V = SolidModel;

    open spec fn view(&self) -> SolidModel {
        SolidModel {
            name: opt_string_view(self.name),
            facets: self.facets@.map_values(|f: Facet| f@),
        }
    }
}

impl View for ParseError {
    type V = ParseErrorModel;

    open spec fn view(&self) -> ParseErrorModel {
        match self {
            ParseError::ExpectedWord { expected, actual } => ParseErrorModel::ExpectedWord {
                expected: expected@,
                actual: opt_string_view(*actual),
            },
            ParseError::ExpectedF32 { actual } => ParseErrorModel::ExpectedF32 {
                actual: opt_string_view(*actual),
            },
        }
    }
}

impl Clone for Coord {
    fn clone(&self) -> (r: Self)
        ensures
            r@ == self@,
    {
        match self {
            Coord::Text(s) => Coord::Text(s.clone()),
            Coord::Bits(b) => Coord::Bits(*b),
        }
    }
}

fn clone_vec3(v: &Vec3) -> (r: Vec3)
    ensures
        r@ == v@,
{
    (v.0.clone(), v.1.clone(), v.2.clone())
}

impl Clone for Facet {
    fn clone(&self) -> (r: Self)
        ensures
            r@ == self@,
    {
        Facet {
            normal: clone_vec3(&self.normal),
            v1: clone_vec3(&self.v1),
            v2: clone_vec3(&self.v2),
            v3: clone_vec3(&self.v3),
        }
    }
}

fn clone_opt_string(o: &Option<String>) -> (r: Option<String>)
    ensures
        opt_string_view(r) == opt_string_view(*o),
{
    match o {
        Some(s) => Some(s.clone()),
        None => None,
    }
}

impl Clone for Solid {
    fn clone(&self) -> (r: Self)
        ensures
            r@ == self@,
    {
        let mut facets: Vec<Facet> = Vec::new();
        let n = self.facets.len();
        let mut i: usize = 0;
        while i < n
            invariant
                n == self.facets@.len(),
                i <= n,
                facets@.len() == i,
                forall|j: int| 0 <= j < i ==> (#[trigger] facets@[j])@ == self.facets@[j]@,
            decreases n - i,
        {
            facets.push(self.facets[i].clone());
            i = i + 1;
        }
        let r = Solid { name: clone_opt_string(&self.name), facets };
        assert(r@.facets =~= self@.facets);
        r
    }
}

impl Clone for ParseError {
    fn clone(&self) -> (r: Self)
        ensures
            r@ == self@,
    {
        match self {
            ParseError::ExpectedWord { expected, actual } => ParseError::ExpectedWord {
                expected: expected.clone(),
                actual: clone_opt_string(actual),
            },
            ParseError::ExpectedF32 { actual } => ParseError::ExpectedF32 {
                actual: clone_opt_string(actual),
            },
        }
    }
}

/// Model of a parse result.
pub open spec fn result_view<T: View>(r: Result<T, ParseError>) -> Result<T::V, ParseErrorModel> {
    match r {
        Ok(v) => Ok(v@),
        Err(e) => Err(e@),
    }
}

} // verus!
