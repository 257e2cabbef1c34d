//! Parsing of STL files, ASCII and binary, into a solid of triangular facets.
pub mod binary;
pub mod coverage;
pub mod laws;
pub mod lexeme;
pub mod model;
pub mod number_laws;
pub mod splitting;
pub mod text;
pub mod utf8_slice;

pub use model::{Coord, Facet, ParseError, Solid, Vec3};
pub use text::StrParser;

use vstd::prelude::*;
use vstd::string::StringSliceAdditionalSpecFns;
use vstd::utf8::{decode_utf8, encode_utf8, valid_utf8};
use crate::binary::{bin_complete, bin_solid, is_complete, parse_bin};
use crate::model::{result_view, ParseErrorModel, SolidModel};
use crate::text::solid_spec;

verus! {

broadcast use vstd::utf8::group_utf8_lib;

/// The bytes of the word `solid`, which open an ASCII file.
pub open spec fn solid_magic() -> Seq<u8> {
    seq![0x73u8, 0x6f, 0x6c, 0x69, 0x64]
}

/// The file opens with `solid`: it is read as ASCII.
pub open spec fn is_ascii_stl(b: Seq<u8>) -> bool {
    b.len() >= 5 && b.take(5) == solid_magic()
}

/// The files that the parser accepts: an ASCII file must be UTF-8 and must
/// not close its solid with another name than it opened it with; a binary file
/// must hold every record that its count announces.
pub open spec fn stl_accepts(b: Seq<u8>) -> bool {
    if is_ascii_stl(b) {
        valid_utf8(b) && solid_spec(decode_utf8(b), 0) is Some
    } else {
        bin_complete(b)
    }
}

/// What the parser gives for the file `b`.
pub open spec fn stl_spec(b: Seq<u8>) -> Result<SolidModel, ParseErrorModel> {
    if is_ascii_stl(b) {
        solid_spec(decode_utf8(b), 0).unwrap().0
    } else {
        Ok(bin_solid(b))
    }
}

/// Calls `std::str::from_utf8`. Trusted: it gives a text exactly where `v` is
/// well-formed UTF-8 (vstd's `valid_utf8`: leading and continuation bytes in
/// their patterns, no overlong encoding, no surrogate, nothing above
/// U+10FFFF), and that text is the one whose UTF-8 encoding is `v`.
#[verifier::external_body]
fn str_from_utf8<'a>(v: &'a [u8]) -> (r: Option<&'a str>)
    ensures
        r is Some <==> valid_utf8(v@),
        r matches Some(s) ==> s.spec_bytes() == v@,
{
    std::str::from_utf8(v).ok()
}

fn starts_with_solid(content: &[u8]) -> (b: bool)
    ensures
        b == is_ascii_stl(content@),
{
    if content.len() < 5 {
        return false;
    }
    let b = content[0] == 0x73 && content[1] == 0x6f && content[2] == 0x6c && content[3] == 0x69
        && content[4] == 0x64;
    assert(b == (content@.take(5) =~= solid_magic()));
    b
}

/// Parses an STL file: as ASCII where it opens with `solid`, else as binary.
/// `None` for the files that [`parse_stl`] does not accept: an ASCII file that
/// is not UTF-8 or closes its solid under another name, a binary file cut
/// short.
pub fn try_parse_stl(content: &[u8]) -> (r: Option<Result<Solid, ParseError>>)
    ensures
        r is None <==> !stl_accepts(content@),
        r matches Some(x) ==> result_view(x) == stl_spec(content@),
{
    if starts_with_solid(content) {
        match str_from_utf8(content) {
            Some(text) => {
                proof {
                    assert(decode_utf8(encode_utf8(text@)) == text@);
                }
                let mut parser = StrParser::new(text);
                parser.try_take_solid()
            },
            None => None,
        }
    } else if is_complete(content) {
        Some(parse_bin(content))
    } else {
        None
    }
}

/// Parses an STL file: as ASCII where it opens with `solid`, else as binary.
pub fn parse_stl(content: &[u8]) -> (r: Result<Solid, ParseError>)
    requires
        stl_accepts(content@),
    ensures
        result_view(r) == stl_spec(content@),
{
    match try_parse_stl(content) {
        Some(r) => r,
        None => {
            proof {
                assert(false);
            }
            Ok(Solid { name: None, facets: Vec::new() })
        },
    }
}

} // verus!
