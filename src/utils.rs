//! Names of the type-info fields, and small value types the tools print.
use vstd::prelude::*;
use crate::file_offset::ParseError;
use crate::names::bytes_eq;
use crate::path::{find, find_byte, lemma_find_byte, COLON};
use vstd::string::StringSliceAdditionalSpecFns;
use crate::format::{
    TYPE_DIM_MASK, TYPE_HINT_MASK, TYPE_PRIM_MASK,
};

verus! {

/// File size in bytes.
#[derive(Copy, Clone, Debug, PartialEq, Eq, Structural, Hash)]
pub struct FileSize(pub u64);

/// A four-byte identifier.
#[derive(Copy, Clone, Debug, Default, Hash)]
pub struct PrintId(pub [u8; 4]);

/// Type info bits.
#[derive(Copy, Clone, Debug, PartialEq, Eq, Structural, Hash)]
pub struct PrintTypeInfo(pub u16);

/// Bytes shown in hexadecimal.
#[derive(Copy, Clone)]
pub struct PrintHex<'a>(pub &'a [u8]);

/// Helper for tracking parents when recursively walking datasets.
pub struct WalkRef<'a, T> {
    pub parent: Option<&'a WalkRef<'a, T>>,
    pub instance: &'a T,
}

/// The name of each primitive code.
pub open spec fn prim_name(p: u16) -> Option<Seq<char>> {
    if p == 0 { Some(seq!['c', 'u', 's', 't', 'o', 'm']) }
    else if p == 2 { Some(seq!['u', '8']) }
    else if p == 3 { Some(seq!['i', '8']) }
    else if p == 4 { Some(seq!['u', '1', '6']) }
    else if p == 5 { Some(seq!['i', '1', '6']) }
    else if p == 6 { Some(seq!['u', '3', '2']) }
    else if p == 7 { Some(seq!['i', '3', '2']) }
    else if p == 8 { Some(seq!['u', '6', '4']) }
    else if p == 9 { Some(seq!['i', '6', '4']) }
    else if p == 10 { Some(seq!['f', '3', '2']) }
    else if p == 11 { Some(seq!['f', '6', '4']) }
    else { None }
}

/// The name of each dimension code.
pub open spec fn dim_name(d: u16) -> Option<Seq<char>> {
    if d == 0x00 { Some(seq!['s', 'c', 'a', 'l', 'a', 'r']) }
    else if d == 0x10 { Some(seq!['1', 'd']) }
    else if d == 0x20 { Some(seq!['2', 'd']) }
    else if d == 0x30 { Some(seq!['3', 'd']) }
    else { None }
}

/// The name of each hint code.
pub open spec fn hint_name(h: u16) -> Option<Seq<char>> {
    if h == 0x000 { Some(seq!['n', 'o', 'n', 'e']) }
    else if h == 0x100 { Some(seq!['t', 'e', 'x', 't']) }
    else if h == 0x200 { Some(seq!['j', 's', 'o', 'n']) }
    else if h == 0x300 { Some(seq!['d', 'a', 't', 'a', 's', 'e', 't']) }
    else if h == 0x400 { Some(seq!['i', 'n', 'd', 'e', 'x']) }
    else if h == 0x500 { Some(seq!['r', 'a', 'n', 'g', 'e']) }
    else if h == 0x600 { Some(seq!['c', 'o', 'o', 'r', 'd']) }
    else if h == 0x700 { Some(seq!['l', 'i', 'n', 'e']) }
    else if h == 0x800 { Some(seq!['t', 'r', 'a', 'n', 's', 'f', 'o', 'r', 'm']) }
    else if h == 0x900 { Some(seq!['r', 'g', 'b']) }
    else { None }
}

pub open spec fn name_view(r: Option<&str>) -> Option<Seq<char>> {
    match r {
        Some(s) => Some(s@),
        None => None,
    }
}

impl PrintTypeInfo {
    /// The name of the primitive in `type_info`.
    pub fn prim(type_info: u16) -> (r: Option<&'static str>)
        ensures
            name_view(r) == prim_name(type_info & TYPE_PRIM_MASK),
    {
        let p = type_info & TYPE_PRIM_MASK;
        let r = if p == 0 { Some("custom") }
        else if p == 2 { Some("u8") }
        else if p == 3 { Some("i8") }
        else if p == 4 { Some("u16") }
        else if p == 5 { Some("i16") }
        else if p == 6 { Some("u32") }
        else if p == 7 { Some("i32") }
        else if p == 8 { Some("u64") }
        else if p == 9 { Some("i64") }
        else if p == 10 { Some("f32") }
        else if p == 11 { Some("f64") }
        else { None };
        proof {
            reveal_strlit("custom");
            reveal_strlit("u8");
            reveal_strlit("i8");
            reveal_strlit("u16");
            reveal_strlit("i16");
            reveal_strlit("u32");
            reveal_strlit("i32");
            reveal_strlit("u64");
            reveal_strlit("i64");
            reveal_strlit("f32");
            reveal_strlit("f64");
            if let Some(s) = r {
                assert(s@ =~= prim_name(p)->0);
            }
        }
        r
    }

    /// The name of the dimension in `type_info`.
    pub fn dim(type_info: u16) -> (r: Option<&'static str>)
        ensures
            name_view(r) == dim_name(type_info & TYPE_DIM_MASK),
    {
        let d = type_info & TYPE_DIM_MASK;
        let r = if d == 0x00 { Some("scalar") }
        else if d == 0x10 { Some("1d") }
        else if d == 0x20 { Some("2d") }
        else if d == 0x30 { Some("3d") }
        else { None };
        proof {
            reveal_strlit("scalar");
            reveal_strlit("1d");
            reveal_strlit("2d");
            reveal_strlit("3d");
            if let Some(s) = r {
                assert(s@ =~= dim_name(d)->0);
            }
        }
        r
    }

    /// The name of the hint in `type_info`.
    pub fn hint(type_info: u16) -> (r: Option<&'static str>)
        ensures
            name_view(r) == hint_name(type_info & TYPE_HINT_MASK),
    {
        let h = type_info & TYPE_HINT_MASK;
        let r = if h == 0x000 { Some("none") }
        else if h == 0x100 { Some("text") }
        else if h == 0x200 { Some("json") }
        else if h == 0x300 { Some("dataset") }
        else if h == 0x400 { Some("index") }
        else if h == 0x500 { Some("range") }
        else if h == 0x600 { Some("coord") }
        else if h == 0x700 { Some("line") }
        else if h == 0x800 { Some("transform") }
        else if h == 0x900 { Some("rgb") }
        else { None };
        proof {
            reveal_strlit("none");
            reveal_strlit("text");
            reveal_strlit("json");
            reveal_strlit("dataset");
            reveal_strlit("index");
            reveal_strlit("range");
            reveal_strlit("coord");
            reveal_strlit("line");
            reveal_strlit("transform");
            reveal_strlit("rgb");
            if let Some(s) = r {
                assert(s@ =~= hint_name(h)->0);
            }
        }
        r
    }
}

impl PrintId {
    /// Reads an identifier of at most four bytes, padded with zero bytes;
    /// longer text fails with `InvalidFormat`.
    pub fn parse(s: &str) -> (r: Result<PrintId, ParseError>)
        ensures
            ({
                let b = vstd::string::StringSliceAdditionalSpecFns::spec_bytes(s);
                &&& b.len() > 4 ==> r == Err::<PrintId, ParseError>(ParseError::InvalidFormat)
                &&& b.len() <= 4 ==> r is Ok && forall|i: int|
                    0 <= i < 4 ==> #[trigger] r->Ok_0.0@[i] == if i < b.len() { b[i] } else { 0u8 }
            }),
    {
        let bytes = s.as_bytes();
        if bytes.len() > 4 {
            return Err(ParseError::InvalidFormat);
        }
        let b0 = if bytes.len() >= 1 { bytes[0] } else { 0 };
        let b1 = if bytes.len() >= 2 { bytes[1] } else { 0 };
        let b2 = if bytes.len() >= 3 { bytes[2] } else { 0 };
        let b3 = if bytes.len() >= 4 { bytes[3] } else { 0 };
        let id = PrintId([b0, b1, b2, b3]);
        assert(id.0@[0] == b0 && id.0@[1] == b1 && id.0@[2] == b2 && id.0@[3] == b3);
        Ok(id)
    }
}

/// The primitive code named by `p` (`?` for custom).
pub open spec fn prim_code(p: Seq<u8>) -> Option<u16> {
    if p == seq![0x3fu8] { Some(0) }
    else if p == seq![0x75u8, 0x38] { Some(2) }
    else if p == seq![0x69u8, 0x38] { Some(3) }
    else if p == seq![0x75u8, 0x31, 0x36] { Some(4) }
    else if p == seq![0x69u8, 0x31, 0x36] { Some(5) }
    else if p == seq![0x75u8, 0x33, 0x32] { Some(6) }
    else if p == seq![0x69u8, 0x33, 0x32] { Some(7) }
    else if p == seq![0x75u8, 0x36, 0x34] { Some(8) }
    else if p == seq![0x69u8, 0x36, 0x34] { Some(9) }
    else if p == seq![0x66u8, 0x33, 0x32] { Some(10) }
    else if p == seq![0x66u8, 0x36, 0x34] { Some(11) }
    else { None }
}

/// The dimension code named by `p`.
pub open spec fn dim_code(p: Seq<u8>) -> Option<u16> {
    if p == seq![0x73u8, 0x63, 0x61, 0x6c, 0x61, 0x72] { Some(0x00) }
    else if p == seq![0x31u8, 0x64] { Some(0x10) }
    else if p == seq![0x32u8, 0x64] { Some(0x20) }
    else if p == seq![0x33u8, 0x64] { Some(0x30) }
    else { None }
}

/// The hint code named by `p`.
pub open spec fn hint_code(p: Seq<u8>) -> Option<u16> {
    if p == seq![0x6eu8, 0x6f, 0x6e, 0x65] { Some(0x000) }
    else if p == seq![0x74u8, 0x65, 0x78, 0x74] { Some(0x100) }
    else if p == seq![0x6au8, 0x73, 0x6f, 0x6e] { Some(0x200) }
    else if p == seq![0x64u8, 0x61, 0x74, 0x61, 0x73, 0x65, 0x74] { Some(0x300) }
    else if p == seq![0x69u8, 0x6e, 0x64, 0x65, 0x78] { Some(0x400) }
    else if p == seq![0x72u8, 0x61, 0x6e, 0x67, 0x65] { Some(0x500) }
    else if p == seq![0x63u8, 0x6f, 0x6f, 0x72, 0x64] { Some(0x600) }
    else if p == seq![0x6cu8, 0x69, 0x6e, 0x65] { Some(0x700) }
    else if p == seq![0x74u8, 0x72, 0x61, 0x6e, 0x73, 0x66, 0x6f, 0x72, 0x6d] { Some(0x800) }
    else if p == seq![0x72u8, 0x67, 0x62] { Some(0x900) }
    else { None }
}

/// What `PrintTypeInfo::parse` reads: `prim:dim` or `prim:dim:hint`.
pub open spec fn type_info_spec(b: Seq<u8>) -> Result<u16, ParseError> {
    let f0 = find_byte(b, COLON, 0);
    let f1 = find_byte(b, COLON, f0 + 1);
    let f2 = find_byte(b, COLON, f1 + 1);
    if f0 == b.len() || (f1 < b.len() && f2 < b.len()) {
        Err(ParseError::InvalidFormat)
    } else {
        let hint = if f1 < b.len() { hint_code(b.subrange(f1 + 1, f2)) } else { Some(0u16) };
        match (prim_code(b.take(f0)), dim_code(b.subrange(f0 + 1, f1)), hint) {
            (Some(p), Some(d), Some(h)) => Ok(h | d | p),
            _ => Err(ParseError::InvalidFormat),
        }
    }
}

fn prim_of(p: &[u8]) -> (r: Option<u16>)
    ensures
        r == prim_code(p@),
{
    let q: [u8; 1] = [0x3f];
    assert(q@ =~= seq![0x3fu8]);
    if bytes_eq(p, &q) { Some(0) }
    else if bytes_eq(p, &[0x75, 0x38]) { Some(2) }
    else if bytes_eq(p, &[0x69, 0x38]) { Some(3) }
    else if bytes_eq(p, &[0x75, 0x31, 0x36]) { Some(4) }
    else if bytes_eq(p, &[0x69, 0x31, 0x36]) { Some(5) }
    else if bytes_eq(p, &[0x75, 0x33, 0x32]) { Some(6) }
    else if bytes_eq(p, &[0x69, 0x33, 0x32]) { Some(7) }
    else if bytes_eq(p, &[0x75, 0x36, 0x34]) { Some(8) }
    else if bytes_eq(p, &[0x69, 0x36, 0x34]) { Some(9) }
    else if bytes_eq(p, &[0x66, 0x33, 0x32]) { Some(10) }
    else if bytes_eq(p, &[0x66, 0x36, 0x34]) { Some(11) }
    else { None }
}

fn dim_of(p: &[u8]) -> (r: Option<u16>)
    ensures
        r == dim_code(p@),
{
    if bytes_eq(p, &[0x73, 0x63, 0x61, 0x6c, 0x61, 0x72]) { Some(0x00) }
    else if bytes_eq(p, &[0x31, 0x64]) { Some(0x10) }
    else if bytes_eq(p, &[0x32, 0x64]) { Some(0x20) }
    else if bytes_eq(p, &[0x33, 0x64]) { Some(0x30) }
    else { None }
}

fn hint_of(p: &[u8]) -> (r: Option<u16>)
    ensures
        r == hint_code(p@),
{
    if bytes_eq(p, &[0x6e, 0x6f, 0x6e, 0x65]) { Some(0x000) }
    else if bytes_eq(p, &[0x74, 0x65, 0x78, 0x74]) { Some(0x100) }
    else if bytes_eq(p, &[0x6a, 0x73, 0x6f, 0x6e]) { Some(0x200) }
    else if bytes_eq(p, &[0x64, 0x61, 0x74, 0x61, 0x73, 0x65, 0x74]) { Some(0x300) }
    else if bytes_eq(p, &[0x69, 0x6e, 0x64, 0x65, 0x78]) { Some(0x400) }
    else if bytes_eq(p, &[0x72, 0x61, 0x6e, 0x67, 0x65]) { Some(0x500) }
    else if bytes_eq(p, &[0x63, 0x6f, 0x6f, 0x72, 0x64]) { Some(0x600) }
    else if bytes_eq(p, &[0x6c, 0x69, 0x6e, 0x65]) { Some(0x700) }
    else if bytes_eq(p, &[0x74, 0x72, 0x61, 0x6e, 0x73, 0x66, 0x6f, 0x72, 0x6d]) { Some(0x800) }
    else if bytes_eq(p, &[0x72, 0x67, 0x62]) { Some(0x900) }
    else { None }
}

impl PrintTypeInfo {
    /// Reads type info written as `prim:dim` or `prim:dim:hint`, with the
    /// names `prim`, `dim` and `hint` give (`?` for a custom primitive, and no
    /// hint meaning `none`); anything else fails with `InvalidFormat`.
    pub fn parse(s: &str) -> (r: Result<PrintTypeInfo, ParseError>)
        ensures
            match type_info_spec(s.spec_bytes()) {
                Ok(t) => r == Ok::<PrintTypeInfo, ParseError>(PrintTypeInfo(t)),
                Err(e) => r == Err::<PrintTypeInfo, ParseError>(e),
            },
    {
        let b = s.as_bytes();
        let n = b.len();
        let f0 = find(b, COLON, 0);
        proof {
            lemma_find_byte(b@, COLON, 0);
        }
        if f0 == n {
            return Err(ParseError::InvalidFormat);
        }
        let f1 = find(b, COLON, f0 + 1);
        proof {
            lemma_find_byte(b@, COLON, f0 + 1);
        }
        let hint = if f1 < n {
            let f2 = find(b, COLON, f1 + 1);
            proof {
                lemma_find_byte(b@, COLON, f1 + 1);
            }
            if f2 < n {
                return Err(ParseError::InvalidFormat);
            }
            hint_of(vstd::slice::slice_subrange(b, f1 + 1, f2))
        } else {
            Some(0)
        };
        let prim = prim_of(vstd::slice::slice_subrange(b, 0, f0));
        assert(b@.subrange(0, f0 as int) =~= b@.take(f0 as int));
        let dim = dim_of(vstd::slice::slice_subrange(b, f0 + 1, f1));
        match (prim, dim, hint) {
            (Some(p), Some(d), Some(h)) => Ok(PrintTypeInfo(h | d | p)),
            _ => Err(ParseError::InvalidFormat),
        }
    }
}

impl core::str::FromStr for PrintTypeInfo {
    type Err = ParseError;

    fn from_str(s: &str) -> Result<PrintTypeInfo, ParseError> {
        PrintTypeInfo::parse(s)
    }
}

impl core::str::FromStr for PrintId {
    type Err = ParseError;

    fn from_str(s: &str) -> Result<PrintId, ParseError> {
        PrintId::parse(s)
    }
}

} // verus!
