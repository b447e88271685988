//! Bit-exact on-disk structures of the UDF format.
use vstd::prelude::*;
use crate::bytes::{get_u64, lemma_u64_kept, push_u64, read_u64};
use crate::file_offset::ParseError;

verus! {

broadcast use vstd::array::group_array_axioms;

/// The file header, at offset 0 of every file (64 bytes).
#[derive(Copy, Clone, Debug, Default)]
pub struct UdfHeader {
    /// Magic file format identifier, [`UDF_MAGIC`].
    pub magic: [u8; 4],
    /// Identifies the application conventions the file follows.
    pub id: [u8; 4],
    /// Reserved for future use.
    pub next: u64,
    /// The root dataset.
    pub root: FileOffset,
    /// Reserved for future use, must be zero.
    pub reserved: [u64; 4],
}

pub const UDF_HEADER_SIZE: usize = 64;

/// The four magic bytes `UDF0`.
pub const UDF_MAGIC: [u8; 4] = [0x55, 0x44, 0x46, 0x30];

/// A region of the file: both fields are multiples of 16; `{0, 0}` is null.
#[derive(Copy, Clone, Debug, PartialEq, Eq, Structural, Default, Hash)]
pub struct FileOffset {
    /// Absolute offset from the start of the file.
    pub offset: u64,
    /// Size of the region; it holds the whole dataset.
    pub size: u64,
}

impl FileOffset {
    pub open spec fn spec_is_null(&self) -> bool {
        self.offset == 0 && self.size == 0
    }

    pub open spec fn spec_is_aligned(&self) -> bool {
        self.offset % 16 == 0 && self.size % 16 == 0
    }

    /// The null offset.
    pub fn null() -> (r: FileOffset)
        ensures
            r.spec_is_null(),
    {
        FileOffset { offset: 0, size: 0 }
    }

    /// Whether this is the null offset.
    pub fn is_null(&self) -> (r: bool)
        ensures
            r == self.spec_is_null(),
    {
        self.offset == 0 && self.size == 0
    }

    /// Whether both fields are multiples of 16.
    pub fn is_aligned(&self) -> (r: bool)
        ensures
            r == self.spec_is_aligned(),
    {
        let o = self.offset;
        let s = self.size;
        assert(o & 0xf == o % 16) by (bit_vector);
        assert(s & 0xf == s % 16) by (bit_vector);
        o & 0xf == 0 && s & 0xf == 0
    }
}

/// The header at the start of every dataset (24 bytes).
#[derive(Copy, Clone, Debug, Default)]
pub struct DatasetHeader {
    /// Must be [`DATASET_CHECK`].
    pub check: u32,
    /// Checksum of the header from the next field on; zero when absent.
    pub checksum: u32,
    /// Identifies the dataset convention.
    pub id: [u8; 4],
    /// Bytes of header, descriptors, lookup entries and strings; a multiple of 8.
    pub size: u16,
    /// Number of table descriptors after the header.
    pub descs_len: u16,
    /// Number of lookup entries after the descriptors.
    pub lookup_len: u16,
    /// Bytes of the string pool after the lookup entries; a multiple of 8.
    pub string_len: u16,
    /// Reserved for future use.
    pub reserved: [u16; 2],
}

pub const DATASET_HEADER_SIZE: usize = 24;
pub const DATASET_CHECK: u32 = 0x7fce_a59b;

/// A table descriptor (48 bytes).
#[derive(Copy, Clone, Debug, Default)]
pub struct TableDesc {
    /// Key name of the table (a name hash, non-zero, unique in the dataset).
    pub key_name: u32,
    /// Primitive, dimension and hint bits.
    pub type_info: u16,
    /// Compression applied to the data.
    pub compress_info: u16,
    /// First storage word of the data.
    pub mem_start: u32,
    /// One past the last storage word reserved for the data.
    pub mem_end: u32,
    /// Size of the data in bytes.
    pub data_size: u32,
    /// Packed shape of the data.
    pub data_shape: [u32; 2],
    /// For an index hint, the table the indices go into; otherwise 0.
    pub index_name: u32,
    /// Related table in a struct-of-arrays layout; otherwise 0.
    pub related_name: u32,
    /// Extended type information as a name hash; otherwise 0.
    pub type_key: u32,
    /// Checksum of the data; zero when absent.
    pub checksum: u32,
    /// Reserved for future use.
    pub reserved: [u32; 1],
}

pub const TABLE_DESC_SIZE: usize = 48;

/// A name lookup entry (8 bytes).
#[derive(Copy, Clone, Debug, Default)]
pub struct LookupEntry {
    pub hash: u32,
    pub offset: u16,
    pub len: u16,
}

pub const LOOKUP_ENTRY_SIZE: usize = 8;

/// An element that indexes one other table.
#[derive(Copy, Clone, Debug, Default)]
pub struct IndexU32(pub u32);

/// An element of two indices.
#[derive(Copy, Clone, Debug, Default)]
pub struct Index2U32(pub u32, pub u32);

/// An element of three indices.
#[derive(Copy, Clone, Debug, Default)]
pub struct Index3U32(pub u32, pub u32, pub u32);

/// An element that is a `[start, end)` range of indices.
#[derive(Copy, Clone, Debug, Default)]
pub struct RangeU32 {
    pub start: u32,
    pub end: u32,
}

pub const TYPE_PRIM_MASK: u16 = 0x008f;
pub const TYPE_PRIM_CUSTOM: u16 = 0;
pub const TYPE_PRIM_U8: u16 = 2;
pub const TYPE_PRIM_I8: u16 = 3;
pub const TYPE_PRIM_U16: u16 = 4;
pub const TYPE_PRIM_I16: u16 = 5;
pub const TYPE_PRIM_U32: u16 = 6;
pub const TYPE_PRIM_I32: u16 = 7;
pub const TYPE_PRIM_U64: u16 = 8;
pub const TYPE_PRIM_I64: u16 = 9;
pub const TYPE_PRIM_F32: u16 = 10;
pub const TYPE_PRIM_F64: u16 = 11;

pub const TYPE_DIM_MASK: u16 = 0x0030;
pub const TYPE_DIM_SCALAR: u16 = 0x00;
pub const TYPE_DIM_1D: u16 = 0x10;
pub const TYPE_DIM_2D: u16 = 0x20;
pub const TYPE_DIM_3D: u16 = 0x30;

pub const TYPE_HINT_MASK: u16 = 0x3f00;
pub const TYPE_HINT_NONE: u16 = 0x000;
pub const TYPE_HINT_TEXT: u16 = 0x100;
pub const TYPE_HINT_JSON: u16 = 0x200;
pub const TYPE_HINT_DATASET: u16 = 0x300;
pub const TYPE_HINT_INDEX: u16 = 0x400;
pub const TYPE_HINT_RANGE: u16 = 0x500;
pub const TYPE_HINT_COORD: u16 = 0x600;
pub const TYPE_HINT_HATCH: u16 = 0x700;
pub const TYPE_HINT_TRANSFORM: u16 = 0x800;
pub const TYPE_HINT_RGB: u16 = 0x900;

/// A one-dimensional table of file offsets to child datasets.
pub const T_FILE_OFFSET: u16 = 0x300 | 0x10 | 8;

pub const COMPRESS_NONE: u16 = 0;
pub const COMPRESS_SIMPLE_U16: u16 = 16;
pub const COMPRESS_SIMPLE_U32: u16 = 17;
pub const COMPRESS_SIMPLE_U64: u16 = 18;
pub const COMPRESS_SIMPLE_F32: u16 = 19;
pub const COMPRESS_SIMPLE_F64: u16 = 20;

/// The byte size (and alignment) of one element of the primitive in `type_info`.
pub open spec fn spec_prim_align(type_info: u16) -> nat {
    let p = type_info & TYPE_PRIM_MASK;
    if p == TYPE_PRIM_U16 || p == TYPE_PRIM_I16 {
        2
    } else if p == TYPE_PRIM_U32 || p == TYPE_PRIM_I32 || p == TYPE_PRIM_F32 {
        4
    } else if p == TYPE_PRIM_U64 || p == TYPE_PRIM_I64 || p == TYPE_PRIM_F64 {
        8
    } else {
        1
    }
}

/// The alignment of the primitive in `type_info`: 1 for bytes and custom data.
pub fn type_prim_align(type_info: u16) -> (r: usize)
    ensures
        r == spec_prim_align(type_info),
{
    let p = type_info & TYPE_PRIM_MASK;
    if p == TYPE_PRIM_U16 || p == TYPE_PRIM_I16 {
        2
    } else if p == TYPE_PRIM_U32 || p == TYPE_PRIM_I32 || p == TYPE_PRIM_F32 {
        4
    } else if p == TYPE_PRIM_U64 || p == TYPE_PRIM_I64 || p == TYPE_PRIM_F64 {
        8
    } else {
        1
    }
}

/// The file header read from the first 64 bytes of `b`.
pub open spec fn udf_header_at(b: Seq<u8>) -> UdfHeader {
    UdfHeader {
        magic: [b[0], b[1], b[2], b[3]],
        id: [b[4], b[5], b[6], b[7]],
        next: get_u64(b, 8),
        root: FileOffset { offset: get_u64(b, 16), size: get_u64(b, 24) },
        reserved: [get_u64(b, 32), get_u64(b, 40), get_u64(b, 48), get_u64(b, 56)],
    }
}

impl UdfHeader {
    /// A fresh header: the magic, `id`, and a null root.
    pub fn new(id: [u8; 4]) -> (r: UdfHeader)
        ensures
            r.magic == UDF_MAGIC,
            r.id == id,
            r.next == 0,
            r.root.spec_is_null(),
            r.reserved == [0u64, 0, 0, 0],
    {
        UdfHeader { magic: UDF_MAGIC, id, next: 0, root: FileOffset { offset: 0, size: 0 }, reserved: [0, 0, 0, 0] }
    }

    /// The 64 bytes of the header, as written at the start of the file.
    pub fn to_bytes(&self) -> (r: Vec<u8>)
        ensures
            r@.len() == 64,
            udf_header_at(r@) == *self,
    {
        let mut v: Vec<u8> = Vec::new();
        v.push(self.magic[0]);
        v.push(self.magic[1]);
        v.push(self.magic[2]);
        v.push(self.magic[3]);
        v.push(self.id[0]);
        v.push(self.id[1]);
        v.push(self.id[2]);
        v.push(self.id[3]);
        let ghost s0 = v@;
        push_u64(&mut v, self.next);
        let ghost s1 = v@;
        push_u64(&mut v, self.root.offset);
        let ghost s2 = v@;
        push_u64(&mut v, self.root.size);
        let ghost s3 = v@;
        push_u64(&mut v, self.reserved[0]);
        let ghost s4 = v@;
        push_u64(&mut v, self.reserved[1]);
        let ghost s5 = v@;
        push_u64(&mut v, self.reserved[2]);
        let ghost s6 = v@;
        push_u64(&mut v, self.reserved[3]);
        proof {
            let f = v@;
            assert(f.take(s1.len() as int) =~= s1);
            assert(f.take(s2.len() as int) =~= s2);
            assert(f.take(s3.len() as int) =~= s3);
            assert(f.take(s4.len() as int) =~= s4);
            assert(f.take(s5.len() as int) =~= s5);
            assert(f.take(s6.len() as int) =~= s6);
            assert(f.take(s0.len() as int) =~= s0);
            lemma_u64_kept(f, s1, 8);
            lemma_u64_kept(f, s2, 16);
            lemma_u64_kept(f, s3, 24);
            lemma_u64_kept(f, s4, 32);
            lemma_u64_kept(f, s5, 40);
            lemma_u64_kept(f, s6, 48);
            assert forall|t: int| 0 <= t < 8 implies #[trigger] f[t] == s0[t] by {
                assert(f.take(s0.len() as int)[t] == f[t]);
            }
            assert(s0[0] == self.magic@[0] && s0[1] == self.magic@[1] && s0[2] == self.magic@[2]
                && s0[3] == self.magic@[3]);
            assert(s0[4] == self.id@[0] && s0[5] == self.id@[1] && s0[6] == self.id@[2] && s0[7]
                == self.id@[3]);
            assert(f[0] == s0[0] && f[1] == s0[1] && f[2] == s0[2] && f[3] == s0[3]);
            assert(f[4] == s0[4] && f[5] == s0[5] && f[6] == s0[6] && f[7] == s0[7]);
            let r = udf_header_at(f);
            assert(r.magic@[0] == self.magic@[0] && r.magic@[1] == self.magic@[1] && r.magic@[2]
                == self.magic@[2] && r.magic@[3] == self.magic@[3]);
            assert(r.magic@ =~= self.magic@);
            assert(r.id@[0] == self.id@[0] && r.id@[1] == self.id@[1] && r.id@[2] == self.id@[2]
                && r.id@[3] == self.id@[3]);
            assert(r.id@ =~= self.id@);
            assert(r.reserved@[0] == self.reserved@[0] && r.reserved@[1] == self.reserved@[1]
                && r.reserved@[2] == self.reserved@[2] && r.reserved@[3] == self.reserved@[3]);
            assert(r.reserved@ =~= self.reserved@);
            assert(r.magic == self.magic);
            assert(r.id == self.id);
            assert(r.reserved == self.reserved);
        }
        v
    }

    /// Reads the header from the first 64 bytes of a file; fails with
    /// `OutOfBounds` when there are fewer, and with `InvalidFormat` when the
    /// magic is not `UDF0`.
    pub fn parse(b: &[u8]) -> (r: Result<UdfHeader, ParseError>)
        ensures
            b@.len() < 64 ==> r == Err::<UdfHeader, ParseError>(ParseError::OutOfBounds),
            b@.len() >= 64 && udf_header_at(b@).magic != UDF_MAGIC ==> r == Err::<
                UdfHeader,
                ParseError,
            >(ParseError::InvalidFormat),
            b@.len() >= 64 && udf_header_at(b@).magic == UDF_MAGIC ==> r == Ok::<
                UdfHeader,
                ParseError,
            >(udf_header_at(b@)),
    {
        if b.len() < 64 {
            return Err(ParseError::OutOfBounds);
        }
        let h = UdfHeader {
            magic: [b[0], b[1], b[2], b[3]],
            id: [b[4], b[5], b[6], b[7]],
            next: read_u64(b, 8),
            root: FileOffset { offset: read_u64(b, 16), size: read_u64(b, 24) },
            reserved: [read_u64(b, 32), read_u64(b, 40), read_u64(b, 48), read_u64(b, 56)],
        };
        if h.magic[0] != UDF_MAGIC[0] || h.magic[1] != UDF_MAGIC[1] || h.magic[2] != UDF_MAGIC[2]
            || h.magic[3] != UDF_MAGIC[3] {
            proof {
                if h.magic == UDF_MAGIC {
                    assert(h.magic@ == UDF_MAGIC@);
                }
            }
            return Err(ParseError::InvalidFormat);
        }
        proof {
            assert(h.magic@[0] == UDF_MAGIC@[0] && h.magic@[1] == UDF_MAGIC@[1] && h.magic@[2] == UDF_MAGIC@[2] && h.magic@[3] == UDF_MAGIC@[3]);
            assert(h.magic@ =~= UDF_MAGIC@);
        }
        Ok(h)
    }
}

} // verus!
