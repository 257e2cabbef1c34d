//! The binary STL format: an 80-byte header, a little-endian `u32` count of
//! triangles, then one 50-byte record per triangle: twelve little-endian
//! 32-bit floats (normal, three vertices) and a 2-byte attribute count.
use vstd::prelude::*;
use crate::model::{Coord, CoordModel, Facet, FacetModel, ParseError, Solid, SolidModel, Vec3, Vec3Model};
use crate::text::facets_view;

verus! {

/// The `u32` stored little-endian at `b[i..i + 4]`.
pub open spec fn le_u32(b: Seq<u8>, i: int) -> u32 {
    (b[i] as int + b[i + 1] as int * 0x100 + b[i + 2] as int * 0x1_0000 + b[i + 3] as int
        * 0x100_0000) as u32
}

/// The three coordinates stored at `b[i..i + 12]`.
pub open spec fn vec3_at(b: Seq<u8>, i: int) -> Vec3Model {
    (
        CoordModel::Bits(le_u32(b, i)),
        CoordModel::Bits(le_u32(b, i + 4)),
        CoordModel::Bits(le_u32(b, i + 8)),
    )
}

/// The facet of the record that starts at `b[i]`.
pub open spec fn facet_at(b: Seq<u8>, i: int) -> FacetModel {
    FacetModel {
        normal: vec3_at(b, i),
        v1: vec3_at(b, i + 12),
        v2: vec3_at(b, i + 24),
        v3: vec3_at(b, i + 36),
    }
}

/// Bytes before the triangle count.
pub const HEADER_LEN: usize = 80;

/// The triangle count of a binary file.
pub open spec fn triangle_count(b: Seq<u8>) -> u32 {
    le_u32(b, 80)
}

/// Where the record of triangle `k` starts.
pub open spec fn record_start(k: int) -> int {
    84 + 50 * k
}

/// The file holds its header, its count and every record that the count announces.
pub open spec fn bin_complete(b: Seq<u8>) -> bool {
    &&& b.len() >= 84
    &&& b.len() >= record_start(triangle_count(b) as int)
}

/// The solid of a binary file: no name, one facet per record.
pub open spec fn bin_solid(b: Seq<u8>) -> SolidModel {
    SolidModel {
        name: None,
        facets: Seq::new(triangle_count(b) as nat, |k: int| facet_at(b, record_start(k))),
    }
}

fn read_le_u32(b: &[u8], i: usize) -> (r: u32)
    requires
        i + 4 <= b@.len(),
    ensures
        r == le_u32(b@, i as int),
{
    let r = (b[i] as u32) + (b[i + 1] as u32) * 0x100 + (b[i + 2] as u32) * 0x1_0000 + (b[i
        + 3] as u32) * 0x100_0000;
    r
}

/// Whether `content` holds every record that its count announces.
pub(crate) fn is_complete(content: &[u8]) -> (b: bool)
    ensures
        b == bin_complete(content@),
{
    if content.len() < 84 {
        return false;
    }
    let n = read_le_u32(content, 80) as u64;
    let need: u64 = 84 + 50 * n;
    (content.len() as u64) >= need
}

/// Reads three coordinates; returns them and the bytes after them.
fn parse_bin_vec(content: &[u8]) -> (r: (Vec3, &[u8]))
    requires
        content@.len() >= 12,
    ensures
        r.0@ == vec3_at(content@, 0),
        r.1@ == content@.skip(12),
{
    let x = Coord::Bits(read_le_u32(content, 0));
    let y = Coord::Bits(read_le_u32(content, 4));
    let z = Coord::Bits(read_le_u32(content, 8));
    ((x, y, z), &content[12..content.len()])
}

/// Parses a binary file. It has no error: every complete file is a solid.
pub(crate) fn parse_bin(content: &[u8]) -> (r: Result<Solid, ParseError>)
    requires
        bin_complete(content@),
    ensures
        r matches Ok(s) && s@ == bin_solid(content@),
{
    let ghost all = content@;
    let content = &content[HEADER_LEN..content.len()];
    let ntriangles = read_le_u32(content, 0);
    assert(ntriangles == triangle_count(all));
    let mut facets: Vec<Facet> = Vec::with_capacity(ntriangles as usize);
    let mut content = &content[4..content.len()];
    let mut k: u32 = 0;
    while k < ntriangles
        invariant
            ntriangles == triangle_count(all),
            bin_complete(all),
            k <= ntriangles,
            content@ == all.skip(record_start(k as int)),
            facets_view(facets@) == Seq::new(k as nat, |j: int| facet_at(all, record_start(j))),
        decreases ntriangles - k,
    {
        let ghost p = record_start(k as int);
        let (norm, rest) = parse_bin_vec(content);
        let (v1, rest) = parse_bin_vec(rest);
        let (v2, rest) = parse_bin_vec(rest);
        let (v3, rest) = parse_bin_vec(rest);
        proof {
            assert(norm@ =~= vec3_at(all, p));
            assert(v1@ =~= vec3_at(all, p + 12));
            assert(v2@ =~= vec3_at(all, p + 24));
            assert(v3@ =~= vec3_at(all, p + 36));
        }
        let f = Facet { normal: norm, v1, v2, v3 };
        let ghost before = facets_view(facets@);
        facets.push(f);
        content = &rest[2..rest.len()];
        k = k + 1;
        proof {
            assert(facets_view(facets@) =~= before.push(f@));
            assert(facets_view(facets@) =~= Seq::new(
                k as nat,
                |j: int| facet_at(all, record_start(j)),
            ));
            assert(content@ =~= all.skip(record_start(k as int)));
        }
    }
    Ok(Solid { name: None, facets })
}

} // verus!
