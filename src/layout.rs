//! Byte layout of the dataset header, table descriptors and lookup entries.
use vstd::prelude::*;
use crate::bytes::{
    get_u16, get_u32, lemma_get_u16_at, lemma_get_u32_at, push_u16, push_u32, read_u16, read_u32,
    u16_le, u32_le,
};
use crate::format::{DatasetHeader, LookupEntry, TableDesc};

verus! {

broadcast use vstd::array::group_array_axioms;

pub open spec fn header_at(b: Seq<u8>, j: int) -> DatasetHeader {
    DatasetHeader {
        check: get_u32(b, j),
        checksum: get_u32(b, j + 4),
        id: [b[j + 8], b[j + 9], b[j + 10], b[j + 11]],
        size: get_u16(b, j + 12),
        descs_len: get_u16(b, j + 14),
        lookup_len: get_u16(b, j + 16),
        string_len: get_u16(b, j + 18),
        reserved: [get_u16(b, j + 20), get_u16(b, j + 22)],
    }
}

pub open spec fn desc_at(b: Seq<u8>, j: int) -> TableDesc {
    TableDesc {
        key_name: get_u32(b, j),
        type_info: get_u16(b, j + 4),
        compress_info: get_u16(b, j + 6),
        mem_start: get_u32(b, j + 8),
        mem_end: get_u32(b, j + 12),
        data_size: get_u32(b, j + 16),
        data_shape: [get_u32(b, j + 20), get_u32(b, j + 24)],
        index_name: get_u32(b, j + 28),
        related_name: get_u32(b, j + 32),
        type_key: get_u32(b, j + 36),
        checksum: get_u32(b, j + 40),
        reserved: [get_u32(b, j + 44)],
    }
}

pub open spec fn entry_at(b: Seq<u8>, j: int) -> LookupEntry {
    LookupEntry { hash: get_u32(b, j), offset: get_u16(b, j + 4), len: get_u16(b, j + 6) }
}

pub open spec fn descs_at(b: Seq<u8>, j: int, n: nat) -> Seq<TableDesc> {
    Seq::new(n, |i: int| desc_at(b, j + 48 * i))
}

pub open spec fn entries_at(b: Seq<u8>, j: int, n: nat) -> Seq<LookupEntry> {
    Seq::new(n, |i: int| entry_at(b, j + 8 * i))
}

/// Bytes `b` that start with `c` decode alike wherever `c` reaches.
pub open spec fn same_prefix(b: Seq<u8>, c: Seq<u8>) -> bool {
    c.len() <= b.len() && b.take(c.len() as int) == c
}

pub proof fn lemma_header_prefix(b: Seq<u8>, c: Seq<u8>, j: int)
    requires
        same_prefix(b, c),
        0 <= j,
        j + 24 <= c.len(),
    ensures
        header_at(b, j) == header_at(c, j),
{
    assert forall|t: int| 0 <= t < 24 implies #[trigger] b[j + t] == c[j + t] by {
        assert(b.take(c.len() as int)[j + t] == b[j + t]);
    }
    assert(b[j] == c[j] && b[j + 1] == c[j + 1] && b[j + 2] == c[j + 2] && b[j + 3] == c[j + 3]);
    assert(b[j + 4] == c[j + 4] && b[j + 5] == c[j + 5] && b[j + 6] == c[j + 6] && b[j + 7] == c[j + 7]);
    assert(b[j + 8] == c[j + 8] && b[j + 9] == c[j + 9] && b[j + 10] == c[j + 10] && b[j + 11] == c[j + 11]);
    assert(b[j + 12] == c[j + 12] && b[j + 13] == c[j + 13] && b[j + 14] == c[j + 14] && b[j + 15] == c[j + 15]);
    assert(b[j + 16] == c[j + 16] && b[j + 17] == c[j + 17] && b[j + 18] == c[j + 18] && b[j + 19] == c[j + 19]);
    assert(b[j + 20] == c[j + 20] && b[j + 21] == c[j + 21] && b[j + 22] == c[j + 22] && b[j + 23] == c[j + 23]);
}

pub proof fn lemma_desc_prefix(b: Seq<u8>, c: Seq<u8>, j: int)
    requires
        same_prefix(b, c),
        0 <= j,
        j + 48 <= c.len(),
    ensures
        desc_at(b, j) == desc_at(c, j),
{
    assert forall|t: int| 0 <= t < 48 implies #[trigger] b[j + t] == c[j + t] by {
        assert(b.take(c.len() as int)[j + t] == b[j + t]);
    }
    assert forall|f: int| 0 <= f < 12 implies #[trigger] get_u32(b, j + 4 * f) == get_u32(c, j + 4 * f) by {
        assert(b[j + 4 * f] == c[j + 4 * f]);
        assert(b[j + 4 * f + 1] == c[j + 4 * f + 1]);
        assert(b[j + 4 * f + 2] == c[j + 4 * f + 2]);
        assert(b[j + 4 * f + 3] == c[j + 4 * f + 3]);
    }
    assert(get_u32(b, j) == get_u32(c, j));
    assert(get_u32(b, j + 4 * 2) == get_u32(c, j + 4 * 2));
    assert(get_u32(b, j + 4 * 3) == get_u32(c, j + 4 * 3));
    assert(get_u32(b, j + 4 * 4) == get_u32(c, j + 4 * 4));
    assert(get_u32(b, j + 4 * 5) == get_u32(c, j + 4 * 5));
    assert(get_u32(b, j + 4 * 6) == get_u32(c, j + 4 * 6));
    assert(get_u32(b, j + 4 * 7) == get_u32(c, j + 4 * 7));
    assert(get_u32(b, j + 4 * 8) == get_u32(c, j + 4 * 8));
    assert(get_u32(b, j + 4 * 9) == get_u32(c, j + 4 * 9));
    assert(get_u32(b, j + 4 * 10) == get_u32(c, j + 4 * 10));
    assert(get_u32(b, j + 4 * 11) == get_u32(c, j + 4 * 11));
    assert(b[j + 4] == c[j + 4] && b[j + 5] == c[j + 5] && b[j + 6] == c[j + 6] && b[j + 7] == c[j + 7]);
    let x = desc_at(b, j);
    let y = desc_at(c, j);
    assert(x.data_shape@ =~= y.data_shape@);
    assert(x.reserved@ =~= y.reserved@);
}

pub proof fn lemma_entry_prefix(b: Seq<u8>, c: Seq<u8>, j: int)
    requires
        same_prefix(b, c),
        0 <= j,
        j + 8 <= c.len(),
    ensures
        entry_at(b, j) == entry_at(c, j),
{
    assert forall|t: int| 0 <= t < 8 implies #[trigger] b[j + t] == c[j + t] by {
        assert(b.take(c.len() as int)[j + t] == b[j + t]);
    }
    assert(b[j] == c[j] && b[j + 1] == c[j + 1] && b[j + 2] == c[j + 2] && b[j + 3] == c[j + 3]);
    assert(b[j + 4] == c[j + 4] && b[j + 5] == c[j + 5] && b[j + 6] == c[j + 6] && b[j + 7] == c[j + 7]);
}

proof fn lemma_push_u32(old_v: Seq<u8>, v: Seq<u8>, x: u32)
    requires
        v == old_v + u32_le(x),
    ensures
        get_u32(v, old_v.len() as int) == x,
        same_prefix(v, old_v),
{
    assert(v.subrange(old_v.len() as int, old_v.len() + 4 as int) =~= u32_le(x));
    lemma_get_u32_at(v, old_v.len() as int, x);
    assert(v.take(old_v.len() as int) =~= old_v);
}

proof fn lemma_push_u16(old_v: Seq<u8>, v: Seq<u8>, x: u16)
    requires
        v == old_v + u16_le(x),
    ensures
        get_u16(v, old_v.len() as int) == x,
        same_prefix(v, old_v),
{
    assert(v.subrange(old_v.len() as int, old_v.len() + 2 as int) =~= u16_le(x));
    lemma_get_u16_at(v, old_v.len() as int, x);
    assert(v.take(old_v.len() as int) =~= old_v);
}

/// Appends `x` little-endian, keeping what was before.
fn put_u32(v: &mut Vec<u8>, x: u32)
    ensures
        final(v)@.len() == old(v)@.len() + 4,
        same_prefix(final(v)@, old(v)@),
        get_u32(final(v)@, old(v)@.len() as int) == x,
{
    let ghost o = v@;
    push_u32(v, x);
    proof {
        lemma_push_u32(o, v@, x);
    }
}

/// Appends `x` little-endian, keeping what was before.
fn put_u16(v: &mut Vec<u8>, x: u16)
    ensures
        final(v)@.len() == old(v)@.len() + 2,
        same_prefix(final(v)@, old(v)@),
        get_u16(final(v)@, old(v)@.len() as int) == x,
{
    let ghost o = v@;
    push_u16(v, x);
    proof {
        lemma_push_u16(o, v@, x);
    }
}

proof fn lemma_prefix_trans(a: Seq<u8>, b: Seq<u8>, c: Seq<u8>)
    requires
        same_prefix(a, b),
        same_prefix(b, c),
    ensures
        same_prefix(a, c),
{
    assert(a.take(c.len() as int) =~= c) by {
        assert forall|t: int| 0 <= t < c.len() implies a.take(c.len() as int)[t] == c[t] by {
            assert(a.take(b.len() as int)[t] == a[t]);
            assert(b.take(c.len() as int)[t] == b[t]);
        }
    }
}

proof fn lemma_u32_kept(a: Seq<u8>, b: Seq<u8>, j: int)
    requires
        same_prefix(a, b),
        0 <= j,
        j + 4 <= b.len(),
    ensures
        get_u32(a, j) == get_u32(b, j),
{
    assert(a.take(b.len() as int)[j] == a[j]);
    assert(a.take(b.len() as int)[j + 1] == a[j + 1]);
    assert(a.take(b.len() as int)[j + 2] == a[j + 2]);
    assert(a.take(b.len() as int)[j + 3] == a[j + 3]);
}

proof fn lemma_u16_kept(a: Seq<u8>, b: Seq<u8>, j: int)
    requires
        same_prefix(a, b),
        0 <= j,
        j + 2 <= b.len(),
    ensures
        get_u16(a, j) == get_u16(b, j),
{
    assert(a.take(b.len() as int)[j] == a[j]);
    assert(a.take(b.len() as int)[j + 1] == a[j + 1]);
}

proof fn lemma_u8_kept(a: Seq<u8>, b: Seq<u8>, j: int)
    requires
        same_prefix(a, b),
        0 <= j < b.len(),
    ensures
        a[j] == b[j],
{
    assert(a.take(b.len() as int)[j] == a[j]);
}

/// Appends the 24 bytes of a dataset header.
pub fn write_header(v: &mut Vec<u8>, h: &DatasetHeader)
    ensures
        final(v)@.len() == old(v)@.len() + 24,
        same_prefix(final(v)@, old(v)@),
        header_at(final(v)@, old(v)@.len() as int) == *h,
{
    let ghost s0 = v@;
    let ghost p = s0.len() as int;
    put_u32(v, h.check);
    let ghost s1 = v@;
    put_u32(v, h.checksum);
    let ghost s2 = v@;
    v.push(h.id[0]);
    v.push(h.id[1]);
    v.push(h.id[2]);
    v.push(h.id[3]);
    let ghost s3 = v@;
    put_u16(v, h.size);
    let ghost s4 = v@;
    put_u16(v, h.descs_len);
    let ghost s5 = v@;
    put_u16(v, h.lookup_len);
    let ghost s6 = v@;
    put_u16(v, h.string_len);
    let ghost s7 = v@;
    put_u16(v, h.reserved[0]);
    let ghost s8 = v@;
    put_u16(v, h.reserved[1]);
    let ghost s9 = v@;
    proof {
        assert(same_prefix(s3, s2)) by {
            assert(s3.take(s2.len() as int) =~= s2);
        }
        lemma_prefix_trans(s9, s8, s7);
        lemma_prefix_trans(s9, s7, s6);
        lemma_prefix_trans(s9, s6, s5);
        lemma_prefix_trans(s9, s5, s4);
        lemma_prefix_trans(s9, s4, s3);
        lemma_prefix_trans(s9, s3, s2);
        lemma_prefix_trans(s9, s2, s1);
        lemma_prefix_trans(s9, s1, s0);
        lemma_u32_kept(s9, s1, p);
        lemma_u32_kept(s9, s2, p + 4);
        lemma_u16_kept(s9, s4, p + 12);
        lemma_u16_kept(s9, s5, p + 14);
        lemma_u16_kept(s9, s6, p + 16);
        lemma_u16_kept(s9, s7, p + 18);
        lemma_u16_kept(s9, s8, p + 20);
        lemma_u8_kept(s9, s3, p + 8);
        lemma_u8_kept(s9, s3, p + 9);
        lemma_u8_kept(s9, s3, p + 10);
        lemma_u8_kept(s9, s3, p + 11);
        assert(s3[p + 8] == h.id@[0] && s3[p + 9] == h.id@[1] && s3[p + 10] == h.id@[2] && s3[p
            + 11] == h.id@[3]);
        let r = header_at(s9, p);
        assert(r.id@[0] == h.id@[0] && r.id@[1] == h.id@[1] && r.id@[2] == h.id@[2] && r.id@[3]
            == h.id@[3]);
        assert(r.id@ =~= h.id@);
        assert(r.reserved@[0] == h.reserved@[0] && r.reserved@[1] == h.reserved@[1]);
        assert(r.reserved@ =~= h.reserved@);
        assert(r.id == h.id);
        assert(r.reserved == h.reserved);
        assert(r.check == h.check);
        assert(r.checksum == h.checksum);
        assert(r.size == h.size);
        assert(r.string_len == h.string_len);
    }
}

/// Appends the 48 bytes of a table descriptor.
pub fn write_desc(v: &mut Vec<u8>, d: &TableDesc)
    ensures
        final(v)@.len() == old(v)@.len() + 48,
        same_prefix(final(v)@, old(v)@),
        desc_at(final(v)@, old(v)@.len() as int) == *d,
{
    let ghost s0 = v@;
    let ghost p = s0.len() as int;
    put_u32(v, d.key_name);
    let ghost s1 = v@;
    put_u16(v, d.type_info);
    let ghost s2 = v@;
    put_u16(v, d.compress_info);
    let ghost s3 = v@;
    put_u32(v, d.mem_start);
    let ghost s4 = v@;
    put_u32(v, d.mem_end);
    let ghost s5 = v@;
    put_u32(v, d.data_size);
    let ghost s6 = v@;
    put_u32(v, d.data_shape[0]);
    let ghost s7 = v@;
    put_u32(v, d.data_shape[1]);
    let ghost s8 = v@;
    put_u32(v, d.index_name);
    let ghost s9 = v@;
    put_u32(v, d.related_name);
    let ghost s10 = v@;
    put_u32(v, d.type_key);
    let ghost s11 = v@;
    put_u32(v, d.checksum);
    let ghost s12 = v@;
    put_u32(v, d.reserved[0]);
    let ghost s13 = v@;
    proof {
        lemma_prefix_trans(s13, s12, s11);
        lemma_prefix_trans(s13, s11, s10);
        lemma_prefix_trans(s13, s10, s9);
        lemma_prefix_trans(s13, s9, s8);
        lemma_prefix_trans(s13, s8, s7);
        lemma_prefix_trans(s13, s7, s6);
        lemma_prefix_trans(s13, s6, s5);
        lemma_prefix_trans(s13, s5, s4);
        lemma_prefix_trans(s13, s4, s3);
        lemma_prefix_trans(s13, s3, s2);
        lemma_prefix_trans(s13, s2, s1);
        lemma_prefix_trans(s13, s1, s0);
        lemma_u32_kept(s13, s1, p);
        lemma_u16_kept(s13, s2, p + 4);
        lemma_u16_kept(s13, s3, p + 6);
        lemma_u32_kept(s13, s4, p + 8);
        lemma_u32_kept(s13, s5, p + 12);
        lemma_u32_kept(s13, s6, p + 16);
        lemma_u32_kept(s13, s7, p + 20);
        lemma_u32_kept(s13, s8, p + 24);
        lemma_u32_kept(s13, s9, p + 28);
        lemma_u32_kept(s13, s10, p + 32);
        lemma_u32_kept(s13, s11, p + 36);
        lemma_u32_kept(s13, s12, p + 40);
        let r = desc_at(s13, p);
        assert(r.data_shape@[0] == d.data_shape@[0] && r.data_shape@[1] == d.data_shape@[1]);
        assert(r.data_shape@ =~= d.data_shape@);
        assert(r.reserved@[0] == d.reserved@[0]);
        assert(r.reserved@ =~= d.reserved@);
        assert(r.data_shape == d.data_shape);
        assert(r.reserved == d.reserved);
        assert(r.key_name == d.key_name);
        assert(r.checksum == d.checksum);
    }
}

/// Appends the 8 bytes of a lookup entry.
pub fn write_entry(v: &mut Vec<u8>, e: &LookupEntry)
    ensures
        final(v)@.len() == old(v)@.len() + 8,
        same_prefix(final(v)@, old(v)@),
        entry_at(final(v)@, old(v)@.len() as int) == *e,
{
    let ghost s0 = v@;
    let ghost p = s0.len() as int;
    put_u32(v, e.hash);
    let ghost s1 = v@;
    put_u16(v, e.offset);
    let ghost s2 = v@;
    put_u16(v, e.len);
    let ghost s3 = v@;
    proof {
        lemma_prefix_trans(s3, s2, s1);
        lemma_prefix_trans(s3, s1, s0);
        lemma_u32_kept(s3, s1, p);
        lemma_u16_kept(s3, s2, p + 4);
    }
}

/// Reads the dataset header at `b[j..j + 24]`.
pub fn read_header(b: &[u8], j: usize) -> (r: DatasetHeader)
    requires
        j + 24 <= b@.len(),
    ensures
        r == header_at(b@, j as int),
{
    let n = b.len();
    DatasetHeader {
        check: read_u32(b, j),
        checksum: read_u32(b, j + 4),
        id: [b[j + 8], b[j + 9], b[j + 10], b[j + 11]],
        size: read_u16(b, j + 12),
        descs_len: read_u16(b, j + 14),
        lookup_len: read_u16(b, j + 16),
        string_len: read_u16(b, j + 18),
        reserved: [read_u16(b, j + 20), read_u16(b, j + 22)],
    }
}

/// Reads the table descriptor at `b[j..j + 48]`.
pub fn read_desc(b: &[u8], j: usize) -> (r: TableDesc)
    requires
        j + 48 <= b@.len(),
    ensures
        r == desc_at(b@, j as int),
{
    let n = b.len();
    TableDesc {
        key_name: read_u32(b, j),
        type_info: read_u16(b, j + 4),
        compress_info: read_u16(b, j + 6),
        mem_start: read_u32(b, j + 8),
        mem_end: read_u32(b, j + 12),
        data_size: read_u32(b, j + 16),
        data_shape: [read_u32(b, j + 20), read_u32(b, j + 24)],
        index_name: read_u32(b, j + 28),
        related_name: read_u32(b, j + 32),
        type_key: read_u32(b, j + 36),
        checksum: read_u32(b, j + 40),
        reserved: [read_u32(b, j + 44)],
    }
}

/// Reads the lookup entry at `b[j..j + 8]`.
pub fn read_entry(b: &[u8], j: usize) -> (r: LookupEntry)
    requires
        j + 8 <= b@.len(),
    ensures
        r == entry_at(b@, j as int),
{
    let n = b.len();
    LookupEntry { hash: read_u32(b, j), offset: read_u16(b, j + 4), len: read_u16(b, j + 6) }
}

} // verus!
