//! Datasets: tables of typed data with their descriptors and name dictionary,
//! built in memory, serialized to bytes and parsed back.
use vstd::prelude::*;
use vstd::slice::{slice_subrange, slice_to_vec};
use vstd::string::StringSliceAdditionalSpecFns;
use crate::file_offset::ParseError;
use crate::bytes::{get_u64, read_u64};
use crate::format::{
    DatasetHeader, LookupEntry, TableDesc, DATASET_CHECK, DATASET_HEADER_SIZE, LOOKUP_ENTRY_SIZE,
    TABLE_DESC_SIZE, COMPRESS_NONE, TYPE_HINT_DATASET, TYPE_HINT_MASK, TYPE_PRIM_MASK,
    TYPE_PRIM_U64,
};
use crate::layout::{
    desc_at, descs_at, entries_at, entry_at, header_at, lemma_desc_prefix, lemma_entry_prefix,
    lemma_header_prefix, read_desc, read_entry, read_header, same_prefix, write_desc, write_entry,
    write_header,
};
use crate::names::{hashes_valid, round_up8, strictly_sorted, NameOrHash, Names, NamesRef};
use crate::shape::{spec_encode, spec_from_type_info, Shape};

verus! {

/// Typed data: bytes with their type, compression and shape.
#[derive(Copy, Clone)]
pub struct DataRef<'a> {
    /// Data bytes.
    pub bytes: &'a [u8],
    /// Type primitive, hint and dimensions.
    pub type_info: u16,
    /// Compression applied to the data bytes.
    pub compress_info: u16,
    /// Length of up to three dimensions.
    pub shape: Shape,
}

impl<'a> DataRef<'a> {
    /// Returns the total number of elements.
    pub fn len(&self) -> (r: usize)
        requires
            crate::shape::shape_len(self.shape) <= usize::MAX,
        ensures
            r == crate::shape::shape_len(self.shape),
    {
        self.shape.len()
    }

    /// Decompresses SimpleU32 data into `storage` and returns a view of the
    /// little-endian values there. Returns the data unchanged when it is not
    /// SimpleU32, or when its stream does not decode to exactly as many values
    /// as its shape holds.
    pub fn decompress(&self, storage: &'a mut Vec<u8>) -> (r: DataRef<'a>)
        requires
            crate::shape::shape_len(self.shape) <= usize::MAX,
        ensures
            ({
                let d = crate::simplu32::decoded(self.bytes@);
                if self.compress_info == crate::format::COMPRESS_SIMPLE_U32 && d is Some
                    && d->0.len() == crate::shape::shape_len(self.shape) {
                    &&& r.bytes@ == le_u32s(d->0)
                    &&& final(storage)@ == r.bytes@
                    &&& r.compress_info == COMPRESS_NONE
                    &&& r.type_info == self.type_info
                    &&& r.shape == self.shape
                } else {
                    r == *self
                }
            }),
    {
        if self.compress_info != crate::format::COMPRESS_SIMPLE_U32 {
            return *self;
        }
        let len = self.shape.len();
        let mut values: Vec<u32> = Vec::new();
        while values.len() < len
            invariant
                values@.len() <= len,
            decreases len - values@.len(),
        {
            values.push(0);
        }
        if !crate::simplu32::decompress(values.as_mut_slice(), self.bytes) {
            return *self;
        }
        storage.clear();
        let mut i: usize = 0;
        while i < values.len()
            invariant
                i <= values@.len(),
                storage@ == le_u32s(values@.take(i as int)),
            decreases values@.len() - i,
        {
            let ghost before = storage@;
            crate::bytes::push_u32(storage, values[i]);
            i += 1;
            assert(values@.take(i as int).drop_last() =~= values@.take(i - 1));
        }
        assert(values@.take(i as int) =~= values@);
        let bytes: &'a Vec<u8> = storage;
        DataRef {
            bytes: bytes.as_slice(),
            type_info: self.type_info,
            compress_info: COMPRESS_NONE,
            shape: self.shape,
        }
    }

    /// Returns whether the data is compressed.
    pub fn is_compressed(&self) -> (r: bool)
        ensures
            r == (self.compress_info != COMPRESS_NONE),
    {
        self.compress_info != COMPRESS_NONE
    }
}

/// The little-endian bytes of a sequence of `u32`.
pub open spec fn le_u32s(vs: Seq<u32>) -> Seq<u8>
    decreases vs.len(),
{
    if vs.len() == 0 {
        Seq::empty()
    } else {
        le_u32s(vs.drop_last()) + crate::bytes::u32_le(vs.last())
    }
}

/// A table to add to a dataset.
#[derive(Copy, Clone)]
pub struct TableRef<'a> {
    pub key_name: u32,
    pub data: DataRef<'a>,
    pub index_name: u32,
    pub related_name: u32,
}

/// In-memory dataset.
#[derive(Clone, Default)]
pub struct Dataset {
    pub header: DatasetHeader,
    pub descs: Vec<TableDesc>,
    pub names: Names,
    /// Table data, each table padded with zeros to a multiple of 8 bytes.
    pub storage: Vec<u8>,
}

/// The descriptor `add_table` records for data placed at storage words
/// `[mem_start, mem_end)`.
pub open spec fn table_desc(t: TableRef, mem_start: u32, mem_end: u32) -> TableDesc {
    TableDesc {
        key_name: t.key_name,
        type_info: t.data.type_info,
        compress_info: t.data.compress_info,
        mem_start,
        mem_end,
        data_size: t.data.bytes@.len() as u32,
        data_shape: spec_encode(t.data.shape).1,
        index_name: t.index_name,
        related_name: t.related_name,
        type_key: 0,
        checksum: 0,
        reserved: [0u32],
    }
}

/// The size in bytes of header, descriptors, lookup entries and strings.
pub open spec fn head_size(descs: nat, entries: nat, strings: nat) -> nat {
    24 + 48 * descs + 8 * entries + strings
}

/// Whether a table with `key` is among `descs`.
pub open spec fn has_key(descs: Seq<TableDesc>, key: u32) -> bool {
    exists|i: int| 0 <= i < descs.len() && #[trigger] descs[i].key_name == key
}

impl Dataset {
    /// The storage holds whole 8-byte words.
    pub open spec fn wf(&self) -> bool {
        self.storage@.len() % 8 == 0
    }

    /// An empty dataset.
    pub fn new() -> (r: Dataset)
        ensures
            r.wf(),
            r.descs@.len() == 0,
            r.names.entries@.len() == 0,
            r.names.strings@.len() == 0,
            r.storage@.len() == 0,
    {
        Dataset {
            header: DatasetHeader {
                check: 0,
                checksum: 0,
                id: [0, 0, 0, 0],
                size: 0,
                descs_len: 0,
                lookup_len: 0,
                string_len: 0,
                reserved: [0, 0],
            },
            descs: Vec::new(),
            names: Names { entries: Vec::new(), strings: Vec::new() },
            storage: Vec::new(),
        }
    }

    /// Borrows the dataset.
    pub fn as_ref(&self) -> (r: DatasetRef<'_>)
        ensures
            *r.header == self.header,
            r.tables@ == self.descs@,
            r.names.entries@ == self.names.entries@,
            r.names.strings@ == self.names.strings@,
            r.storage@ == self.storage@,
    {
        DatasetRef {
            header: &self.header,
            tables: self.descs.as_slice(),
            names: self.names.as_ref(),
            storage: self.storage.as_slice(),
        }
    }

    /// The number of tables in this dataset.
    pub fn len(&self) -> (r: usize)
        ensures
            r == self.descs@.len(),
    {
        self.descs.len()
    }

    /// The name dictionary.
    pub fn get_names(&self) -> (r: NamesRef<'_>)
        ensures
            r.entries@ == self.names.entries@,
            r.strings@ == self.names.strings@,
    {
        self.names.as_ref()
    }

    /// Adds a table: copies its bytes into the storage, zero-padded to a
    /// multiple of 8, and records its descriptor.
    ///
    /// Returns `false`, changing nothing, when the key name is 0 or a table
    /// with the same key name is already there.
    pub fn add_table(&mut self, table_ref: TableRef) -> (r: bool)
        requires
            old(self).wf(),
            old(self).storage@.len() + table_ref.data.bytes@.len() + 8 <= 8 * (u32::MAX as int),
            table_ref.data.bytes@.len() <= u32::MAX,
        ensures
            final(self).wf(),
            r == (table_ref.key_name != 0 && !has_key(old(self).descs@, table_ref.key_name)),
            !r ==> *final(self) == *old(self),
            r ==> {
                let n = table_ref.data.bytes@.len();
                let ms = if n == 0 { 0u32 } else { (old(self).storage@.len() / 8) as u32 };
                let me = if n == 0 { 0u32 } else { (final(self).storage@.len() / 8) as u32 };
                &&& final(self).descs@ == old(self).descs@.push(table_desc(table_ref, ms, me))
                &&& final(self).storage@.len() == old(self).storage@.len() + round_up8(n)
                &&& final(self).storage@.take(old(self).storage@.len() as int) == old(self).storage@
                &&& final(self).storage@.subrange(
                    old(self).storage@.len() as int,
                    old(self).storage@.len() + n as int,
                ) == table_ref.data.bytes@
                &&& forall|i: int|
                    old(self).storage@.len() + n <= i < final(self).storage@.len()
                        ==> final(self).storage@[i] == 0
                &&& final(self).header == old(self).header
                &&& final(self).names == old(self).names
            },
    {
        if table_ref.key_name == 0 {
            return false;
        }
        let mut i: usize = 0;
        while i < self.descs.len()
            invariant
                i <= self.descs@.len(),
                *self == *old(self),
                self.wf(),
                forall|j: int| 0 <= j < i ==> self.descs@[j].key_name != table_ref.key_name,
            decreases self.descs@.len() - i,
        {
            if self.descs[i].key_name == table_ref.key_name {
                return false;
            }
            i += 1;
        }
        let (mem_start, mem_end) = self.write_data(table_ref.data.bytes);
        let (_dims, data_shape) = table_ref.data.shape.encode();
        self.descs.push(
            TableDesc {
                key_name: table_ref.key_name,
                type_info: table_ref.data.type_info,
                compress_info: table_ref.data.compress_info,
                mem_start,
                mem_end,
                data_size: table_ref.data.bytes.len() as u32,
                data_shape,
                index_name: table_ref.index_name,
                related_name: table_ref.related_name,
                type_key: 0,
                checksum: 0,
                reserved: [0],
            },
        );
        true
    }

    /// Appends `data` to the storage, zero-padded to a multiple of 8 bytes, and
    /// returns the range of storage words it occupies (`(0, 0)` when empty).
    fn write_data(&mut self, data: &[u8]) -> (r: (u32, u32))
        requires
            old(self).storage@.len() % 8 == 0,
            old(self).storage@.len() + data@.len() + 8 <= 8 * (u32::MAX as int),
        ensures
            r.0 == if data@.len() == 0 { 0u32 } else { (old(self).storage@.len() / 8) as u32 },
            r.1 == if data@.len() == 0 { 0u32 } else { (final(self).storage@.len() / 8) as u32 },
            final(self).storage@.len() == old(self).storage@.len() + round_up8(data@.len()),
            final(self).storage@.len() % 8 == 0,
            final(self).storage@.take(old(self).storage@.len() as int) == old(self).storage@,
            final(self).storage@.subrange(
                old(self).storage@.len() as int,
                old(self).storage@.len() + data@.len() as int,
            ) == data@,
            forall|i: int|
                old(self).storage@.len() + data@.len() <= i < final(self).storage@.len()
                    ==> final(self).storage@[i] == 0,
            final(self).descs == old(self).descs,
            final(self).header == old(self).header,
            final(self).names == old(self).names,
    {
        if data.len() == 0 {
            return (0, 0);
        }
        let old_len = self.storage.len();
        let ghost old_storage = self.storage@;
        let mut i: usize = 0;
        while i < data.len()
            invariant
                i <= data@.len(),
                self.storage@ == old_storage + data@.take(i as int),
                old_storage == old(self).storage@,
                old_len == old_storage.len(),
                self.descs == old(self).descs,
                self.header == old(self).header,
                self.names == old(self).names,
            decreases data@.len() - i,
        {
            self.storage.push(data[i]);
            i += 1;
            assert(data@.take(i as int) =~= data@.take(i - 1).push(data@[i - 1]));
        }
        assert(data@.take(i as int) =~= data@);
        let ghost filled = self.storage@;
        while self.storage.len() % 8 != 0
            invariant
                self.storage@.len() <= old_len + round_up8(data@.len()),
                self.storage@.len() >= filled.len(),
                filled.len() == old_len + data@.len(),
                old_len % 8 == 0,
                self.storage@.take(filled.len() as int) == filled,
                forall|j: int| filled.len() <= j < self.storage@.len() ==> self.storage@[j] == 0,
                self.descs == old(self).descs,
                self.header == old(self).header,
                self.names == old(self).names,
            decreases old_len + round_up8(data@.len()) - self.storage@.len(),
        {
            let ghost before = self.storage@;
            self.storage.push(0);
            assert(self.storage@.take(filled.len() as int) =~= before.take(filled.len() as int));
        }
        proof {
            assert(self.storage@.len() == old_len + round_up8(data@.len()));
            assert(self.storage@.take(old_len as int) =~= old_storage) by {
                assert forall|t: int| 0 <= t < old_len implies self.storage@.take(old_len as int)[t]
                    == old_storage[t] by {
                    assert(self.storage@.take(filled.len() as int)[t] == self.storage@[t]);
                }
            }
            assert(self.storage@.subrange(old_len as int, old_len + data@.len()) =~= data@) by {
                assert forall|t: int| 0 <= t < data@.len() implies self.storage@.subrange(
                    old_len as int,
                    old_len + data@.len(),
                )[t] == data@[t] by {
                    assert(self.storage@.take(filled.len() as int)[old_len + t] == self.storage@[old_len
                        + t]);
                }
            }
        }
        let new_len = self.storage.len();
        ((old_len / 8) as u32, (new_len / 8) as u32)
    }

    /// Completes the dataset: sorts the name table, pads the string pool to a
    /// multiple of 8 and fills in the header.
    ///
    /// Fails, changing nothing, with `InvalidFormat` when two names share a
    /// hash or a name has hash 0, and with `Overflow` when a count or the
    /// header size does not fit its 16-bit field.
    pub fn finalize(&mut self) -> (r: Result<(), ParseError>)
        ensures
            ({
                let size = head_size(
                    old(self).descs@.len(),
                    old(self).names.entries@.len(),
                    round_up8(old(self).names.strings@.len()),
                );
                let fits = size <= u16::MAX && old(self).descs@.len() <= u16::MAX
                    && old(self).names.entries@.len() <= u16::MAX;
                &&& !fits ==> r == Err::<(), ParseError>(ParseError::Overflow)
                &&& fits && !hashes_valid(old(self).names.entries@) ==> r == Err::<(), ParseError>(
                    ParseError::InvalidFormat,
                )
                &&& r is Err ==> *final(self) == *old(self)
                &&& r is Ok <==> fits && hashes_valid(old(self).names.entries@)
            }),
            r is Ok ==> {
                &&& final(self).header.check == DATASET_CHECK
                &&& final(self).header.size as nat == head_size(
                    final(self).descs@.len(),
                    final(self).names.entries@.len(),
                    final(self).names.strings@.len(),
                )
                &&& final(self).header.size % 8 == 0
                &&& final(self).header.descs_len == final(self).descs@.len()
                &&& final(self).header.lookup_len == final(self).names.entries@.len()
                &&& final(self).header.string_len == final(self).names.strings@.len()
                &&& final(self).header.checksum == old(self).header.checksum
                &&& final(self).header.id == old(self).header.id
                &&& final(self).header.reserved == old(self).header.reserved
                &&& final(self).names.strings@.len() % 8 == 0
                &&& final(self).names.strings@.len() == round_up8(old(self).names.strings@.len())
                &&& final(self).names.strings@.take(old(self).names.strings@.len() as int)
                    == old(self).names.strings@
                &&& final(self).names.entries@.to_multiset()
                    == old(self).names.entries@.to_multiset()
                &&& strictly_sorted(final(self).names.entries@)
                &&& hashes_valid(final(self).names.entries@)
                &&& final(self).descs == old(self).descs
                &&& final(self).storage == old(self).storage
            },
    {
        let descs = self.descs.len();
        let entries = self.names.entries.len();
        let strings = self.names.strings.len();
        if descs > 0xffff || entries > 0xffff || strings > 0xffff {
            return Err(ParseError::Overflow);
        }
        let padded = if strings % 8 == 0 { strings } else { strings + 8 - strings % 8 };
        let size = DATASET_HEADER_SIZE + TABLE_DESC_SIZE * descs + LOOKUP_ENTRY_SIZE * entries
            + padded;
        if size > 0xffff {
            return Err(ParseError::Overflow);
        }
        match self.names.finalize() {
            Ok(()) => {},
            Err(e) => {
                return Err(e);
            },
        }
        self.header.check = DATASET_CHECK;
        self.header.size = size as u16;
        self.header.descs_len = descs as u16;
        self.header.lookup_len = entries as u16;
        self.header.string_len = padded as u16;
        Ok(())
    }

    /// Parses a dataset out of the bytes of its region.
    ///
    /// The header must carry the check value, its size must be a multiple of
    /// 8 within the bytes, and the descriptors, lookup entries and strings
    /// must fit in that size one after the other; the storage is what follows
    /// the size. The bytes are whole 8-byte words, as regions are.
    pub fn parse(storage: &[u8]) -> (r: Result<Dataset, ParseError>)
        ensures
            r is Ok <==> spec_parse(storage@) is Ok,
            r matches Err(e) ==> spec_parse(storage@) == Err::<DatasetModel, ParseError>(e),
            r matches Ok(d) ==> spec_parse(storage@) == Ok::<DatasetModel, ParseError>(model_of(d)),
            r matches Ok(d) ==> d.wf(),
    {
        let n = storage.len();
        if n < DATASET_HEADER_SIZE {
            return Err(ParseError::OutOfBounds);
        }
        let header = read_header(storage, 0);
        if header.check != DATASET_CHECK {
            return Err(ParseError::InvalidFormat);
        }
        if header.size % 8 != 0 {
            return Err(ParseError::InvalidFormat);
        }
        let size = header.size as usize;
        if size > n {
            return Err(ParseError::OutOfBounds);
        }
        let d = header.descs_len as usize;
        let l = header.lookup_len as usize;
        let s = header.string_len as usize;
        if DATASET_HEADER_SIZE + TABLE_DESC_SIZE * d + LOOKUP_ENTRY_SIZE * l + s > size {
            return Err(ParseError::OutOfBounds);
        }
        let mut descs: Vec<TableDesc> = Vec::new();
        let mut i: usize = 0;
        while i < d
            invariant
                i <= d,
                24 + 48 * d <= n,
                n == storage@.len(),
                descs@ == descs_at(storage@, 24, i as nat),
            decreases d - i,
        {
            descs.push(read_desc(storage, DATASET_HEADER_SIZE + TABLE_DESC_SIZE * i));
            i += 1;
            assert(descs@ =~= descs_at(storage@, 24, i as nat));
        }
        let eoff = DATASET_HEADER_SIZE + TABLE_DESC_SIZE * d;
        let mut entries: Vec<LookupEntry> = Vec::new();
        let mut i: usize = 0;
        while i < l
            invariant
                i <= l,
                eoff + 8 * l <= n,
                n == storage@.len(),
                entries@ == entries_at(storage@, eoff as int, i as nat),
            decreases l - i,
        {
            entries.push(read_entry(storage, eoff + LOOKUP_ENTRY_SIZE * i));
            i += 1;
            assert(entries@ =~= entries_at(storage@, eoff as int, i as nat));
        }
        if n % 8 != 0 {
            return Err(ParseError::InvalidFormat);
        }
        let soff = eoff + LOOKUP_ENTRY_SIZE * l;
        let strings = slice_to_vec(slice_subrange(storage, soff, soff + s));
        let data = slice_to_vec(slice_subrange(storage, size, n));
        proof {
            assert(descs@ =~= descs_at(storage@, 24, d as nat));
        }
        Ok(Dataset { header, descs, names: Names { entries, strings }, storage: data })
    }
}

/// The parts of a dataset, as values.
pub struct DatasetModel {
    pub header: DatasetHeader,
    pub descs: Seq<TableDesc>,
    pub entries: Seq<LookupEntry>,
    pub strings: Seq<u8>,
    pub storage: Seq<u8>,
}

pub open spec fn model_of(d: Dataset) -> DatasetModel {
    DatasetModel {
        header: d.header,
        descs: d.descs@,
        entries: d.names.entries@,
        strings: d.names.strings@,
        storage: d.storage@,
    }
}

/// What parsing `b` gives: the checks in order, then the sections.
pub open spec fn spec_parse(b: Seq<u8>) -> Result<DatasetModel, ParseError> {
    if b.len() < 24 {
        Err(ParseError::OutOfBounds)
    } else {
        let h = header_at(b, 0);
        let d = h.descs_len as int;
        let l = h.lookup_len as int;
        let s = h.string_len as int;
        let eoff = 24 + 48 * d;
        let soff = eoff + 8 * l;
        if h.check != DATASET_CHECK {
            Err(ParseError::InvalidFormat)
        } else if h.size % 8 != 0 {
            Err(ParseError::InvalidFormat)
        } else if h.size > b.len() {
            Err(ParseError::OutOfBounds)
        } else if head_size(d as nat, l as nat, s as nat) > h.size {
            Err(ParseError::OutOfBounds)
        } else if b.len() % 8 != 0 {
            Err(ParseError::InvalidFormat)
        } else {
            Ok(
                DatasetModel {
                    header: h,
                    descs: descs_at(b, 24, d as nat),
                    entries: entries_at(b, eoff, l as nat),
                    strings: b.subrange(soff, soff + s),
                    storage: b.skip(h.size as int),
                },
            )
        }
    }
}

/// A dataset by reference.
#[derive(Copy, Clone)]
pub struct DatasetRef<'a> {
    pub header: &'a DatasetHeader,
    pub tables: &'a [TableDesc],
    pub names: NamesRef<'a>,
    pub storage: &'a [u8],
}

/// Whether `b` holds the dataset `m` laid out as on disk: header, descriptors,
/// lookup entries, strings, then the storage.
pub open spec fn serialized(b: Seq<u8>, m: DatasetModel) -> bool {
    let d = m.descs.len() as int;
    let l = m.entries.len() as int;
    let soff = 24 + 48 * d + 8 * l;
    let size = soff + m.strings.len();
    &&& b.len() == size + m.storage.len()
    &&& header_at(b, 0) == m.header
    &&& descs_at(b, 24, d as nat) == m.descs
    &&& entries_at(b, 24 + 48 * d, l as nat) == m.entries
    &&& b.subrange(soff, size) == m.strings
    &&& b.skip(size) == m.storage
}

/// A dataset as `finalize` leaves it: the header's counts and size agree with
/// the sections and the size is a multiple of 8.
pub open spec fn model_consistent(m: DatasetModel) -> bool {
    &&& m.header.check == DATASET_CHECK
    &&& m.header.descs_len == m.descs.len()
    &&& m.header.lookup_len == m.entries.len()
    &&& m.header.string_len == m.strings.len()
    &&& m.header.size as nat == head_size(m.descs.len(), m.entries.len(), m.strings.len())
    &&& m.header.size % 8 == 0
}

/// Parsing the bytes of a consistent dataset, followed by the zero padding of
/// its region, gives back every part of it: header, descriptors, lookup
/// entries, strings, and the storage with the padding after it.
pub proof fn lemma_parse_serialized(b: Seq<u8>, m: DatasetModel, pad: Seq<u8>)
    requires
        model_consistent(m),
        serialized(b, m),
        (b + pad).len() % 8 == 0,
        forall|i: int| 0 <= i < pad.len() ==> pad[i] == 0,
    ensures
        spec_parse(b + pad) == Ok::<DatasetModel, ParseError>(
            DatasetModel { storage: m.storage + pad, ..m },
        ),
{
    let f = b + pad;
    let d = m.descs.len() as int;
    let l = m.entries.len() as int;
    assert(f.take(b.len() as int) =~= b);
    assert(same_prefix(f, b));
    lemma_header_prefix(f, b, 0);
    assert forall|k: int| 0 <= k < d implies desc_at(f, 24 + 48 * k) == #[trigger] m.descs[k] by {
        lemma_desc_prefix(f, b, 24 + 48 * k);
        assert(descs_at(b, 24, d as nat)[k] == desc_at(b, 24 + 48 * k));
    }
    assert(descs_at(f, 24, d as nat) =~= m.descs);
    assert forall|k: int| 0 <= k < l implies entry_at(f, 24 + 48 * d + 8 * k) == #[trigger] m.entries[k] by {
        lemma_entry_prefix(f, b, 24 + 48 * d + 8 * k);
        assert(entries_at(b, 24 + 48 * d, l as nat)[k] == entry_at(b, 24 + 48 * d + 8 * k));
    }
    assert(entries_at(f, 24 + 48 * d, l as nat) =~= m.entries);
    let soff = 24 + 48 * d + 8 * l;
    let size = m.header.size as int;
    assert(f.subrange(soff, size) =~= b.subrange(soff, size));
    assert(f.skip(size) =~= b.skip(size) + pad);
}

impl<'a> DatasetRef<'a> {
    /// The number of tables in this dataset.
    pub fn len(&self) -> (r: usize)
        ensures
            r == self.tables@.len(),
    {
        self.tables.len()
    }

    /// Finds the first table descriptor with `key_name`.
    pub fn find_table(&self, key_name: u32) -> (r: Option<&'a TableDesc>)
        ensures
            ({
                let k = table_index(self.tables@, key_name, 0);
                &&& r is None <==> k == self.tables@.len()
                &&& r matches Some(t) ==> k < self.tables@.len() && *t == self.tables@[k]
            }),
            r is None <==> !has_key(self.tables@, key_name),
    {
        proof {
            lemma_table_index(self.tables@, key_name, 0);
        }
        let mut i: usize = 0;
        while i < self.tables.len()
            invariant
                i <= self.tables@.len(),
                forall|j: int| 0 <= j < i ==> #[trigger] self.tables@[j].key_name != key_name,
                table_index(self.tables@, key_name, 0) == table_index(self.tables@, key_name, i as int),
            decreases self.tables@.len() - i,
        {
            if self.tables[i].key_name == key_name {
                return Some(&self.tables[i]);
            }
            i += 1;
        }
        None
    }

    /// The data of a table: its words `[mem_start, mem_end)` of the storage,
    /// cut to `data_size` bytes; `None` when they lie outside the storage or
    /// `data_size` exceeds them.
    pub fn get_data_ref(&self, table: &TableDesc) -> (r: Option<DataRef<'a>>)
        ensures
            ({
                let start = 8 * table.mem_start as int;
                let end = 8 * table.mem_end as int;
                let ok = start <= end && end <= self.storage@.len() && table.data_size <= end
                    - start;
                &&& r is Some <==> ok
                &&& r matches Some(d) ==> {
                    &&& d.bytes@ == self.storage@.subrange(start, start + table.data_size)
                    &&& d.type_info == table.type_info
                    &&& d.compress_info == table.compress_info
                    &&& d.shape == spec_from_type_info(table.type_info, table.data_shape)
                }
            }),
    {
        let start = table.mem_start as usize;
        let end = table.mem_end as usize;
        if start > end || end > self.storage.len() / 8 {
            return None;
        }
        let size = table.data_size as usize;
        if size > (end - start) * 8 {
            return None;
        }
        let bytes = slice_subrange(self.storage, start * 8, start * 8 + size);
        Some(
            DataRef {
                bytes,
                type_info: table.type_info,
                compress_info: table.compress_info,
                shape: Shape::from_type_info(table.type_info, table.data_shape),
            },
        )
    }

    /// The size in bytes this dataset takes on disk.
    pub fn file_size(&self) -> (r: usize)
        requires
            head_size(self.tables@.len(), self.names.entries@.len(), self.names.strings@.len())
                + self.storage@.len() <= usize::MAX,
        ensures
            r == head_size(self.tables@.len(), self.names.entries@.len(), self.names.strings@.len())
                + self.storage@.len(),
    {
        DATASET_HEADER_SIZE + TABLE_DESC_SIZE * self.tables.len() + self.names.file_size()
            + self.storage.len()
    }

    /// The name dictionary.
    pub fn get_names(&self) -> (r: NamesRef<'a>)
        ensures
            r == self.names,
    {
        self.names
    }

    /// The name of a hash, or the hash where it has none.
    pub fn get_name(&self, hash: u32) -> (r: NameOrHash<'a>)
        ensures
            r.0 matches Err(h) ==> h == hash,
            r.0 matches Ok(s) ==> hash != 0 && exists|i: int|
                0 <= i < self.names.entries@.len() && self.names.entries@[i].hash == hash
                    && crate::names::entry_bytes(self.names.strings@, #[trigger] self.names.entries@[i])
                    == Some(s.spec_bytes()),
            crate::names::strictly_sorted(self.names.entries@) && hash != 0 && (exists|i: int|
                0 <= i < self.names.entries@.len() && self.names.entries@[i].hash == hash
                    && crate::names::entry_has_name(
                    self.names.strings@,
                    #[trigger] self.names.entries@[i],
                )) ==> r.0 is Ok,
    {
        NameOrHash(self.names.lookup(hash))
    }

    /// Copies the dataset into an owned one.
    pub fn to_owned(&self) -> (r: Dataset)
        ensures
            r.header == *self.header,
            r.descs@ == self.tables@,
            r.names.entries@ == self.names.entries@,
            r.names.strings@ == self.names.strings@,
            r.storage@ == self.storage@,
    {
        Dataset {
            header: *self.header,
            descs: slice_to_vec(self.tables),
            names: self.names.to_owned(),
            storage: slice_to_vec(self.storage),
        }
    }

    /// The bytes of the dataset as stored in a file region: header,
    /// descriptors, lookup entries, strings, then the storage.
    pub fn to_bytes(&self) -> (r: Vec<u8>)
        ensures
            serialized(
                r@,
                DatasetModel {
                    header: *self.header,
                    descs: self.tables@,
                    entries: self.names.entries@,
                    strings: self.names.strings@,
                    storage: self.storage@,
                },
            ),
    {
        let mut out: Vec<u8> = Vec::new();
        write_header(&mut out, self.header);
        let ghost s_head = out@;
        assert(out@.take(out@.len() as int) =~= out@);
        let mut i: usize = 0;
        while i < self.tables.len()
            invariant
                i <= self.tables@.len(),
                out@.len() == 24 + 48 * i,
                same_prefix(out@, s_head),
                s_head.len() == 24,
                header_at(s_head, 0) == *self.header,
                forall|k: int| 0 <= k < i ==> desc_at(out@, 24 + 48 * k) == #[trigger] self.tables@[k],
            decreases self.tables@.len() - i,
        {
            let ghost before = out@;
            write_desc(&mut out, &self.tables[i]);
            proof {
                assert forall|k: int| 0 <= k < i + 1 implies desc_at(out@, 24 + 48 * k)
                    == #[trigger] self.tables@[k] by {
                    if k < i {
                        lemma_desc_prefix(out@, before, 24 + 48 * k);
                    }
                }
                lemma_prefix_trans_pub(out@, before, s_head);
            }
            i += 1;
        }
        let ghost s_descs = out@;
        let mut i: usize = 0;
        let ghost eoff = s_descs.len() as int;
        assert(out@.take(out@.len() as int) =~= out@);
        while i < self.names.entries.len()
            invariant
                i <= self.names.entries@.len(),
                out@.len() == eoff + 8 * i,
                eoff == 24 + 48 * self.tables@.len(),
                same_prefix(out@, s_descs),
                same_prefix(s_descs, s_head),
                s_head.len() == 24,
                header_at(s_head, 0) == *self.header,
                s_descs.len() == eoff,
                forall|k: int| 0 <= k < self.tables@.len() ==> desc_at(s_descs, 24 + 48 * k) == #[trigger] self.tables@[k],
                forall|k: int|
                    0 <= k < i ==> entry_at(out@, eoff + 8 * k) == #[trigger] self.names.entries@[k],
            decreases self.names.entries@.len() - i,
        {
            let ghost before = out@;
            write_entry(&mut out, &self.names.entries[i]);
            proof {
                assert forall|k: int| 0 <= k < i + 1 implies entry_at(out@, eoff + 8 * k)
                    == #[trigger] self.names.entries@[k] by {
                    if k < i {
                        lemma_entry_prefix(out@, before, eoff + 8 * k);
                    }
                }
                lemma_prefix_trans_pub(out@, before, s_descs);
            }
            i += 1;
        }
        let ghost s_entries = out@;
        let mut i: usize = 0;
        while i < self.names.strings.len()
            invariant
                i <= self.names.strings@.len(),
                out@ == s_entries + self.names.strings@.take(i as int),
            decreases self.names.strings@.len() - i,
        {
            out.push(self.names.strings[i]);
            i += 1;
            assert(self.names.strings@.take(i as int) =~= self.names.strings@.take(i - 1).push(
                self.names.strings@[i - 1],
            ));
        }
        let ghost s_strings = out@;
        let mut i: usize = 0;
        while i < self.storage.len()
            invariant
                i <= self.storage@.len(),
                out@ == s_strings + self.storage@.take(i as int),
            decreases self.storage@.len() - i,
        {
            out.push(self.storage[i]);
            i += 1;
            assert(self.storage@.take(i as int) =~= self.storage@.take(i - 1).push(
                self.storage@[i - 1],
            ));
        }
        proof {
            let d = self.tables@.len();
            let l = self.names.entries@.len();
            assert(self.names.strings@.take(self.names.strings@.len() as int) =~= self.names.strings@);
            assert(self.storage@.take(self.storage@.len() as int) =~= self.storage@);
            assert(same_prefix(out@, s_entries)) by {
                assert(out@.take(s_entries.len() as int) =~= s_entries);
            }
            lemma_prefix_trans_pub(out@, s_entries, s_descs);
            lemma_prefix_trans_pub(out@, s_descs, s_head);
            lemma_header_prefix(out@, s_head, 0);
            assert forall|k: int| 0 <= k < d implies desc_at(out@, 24 + 48 * k)
                == #[trigger] self.tables@[k] by {
                lemma_desc_prefix(out@, s_descs, 24 + 48 * k);
            }
            assert(descs_at(out@, 24, d) =~= self.tables@);
            assert forall|k: int| 0 <= k < l implies entry_at(out@, eoff + 8 * k)
                == #[trigger] self.names.entries@[k] by {
                lemma_entry_prefix(out@, s_entries, eoff + 8 * k);
            }
            assert(entries_at(out@, 24 + 48 * (d as int), l) =~= self.names.entries@);
            let soff = s_entries.len() as int;
            assert(out@.subrange(soff, soff + self.names.strings@.len()) =~= self.names.strings@);
            assert(out@.skip(s_strings.len() as int) =~= self.storage@);
        }
        out
    }
}

/// The first index at or after `from` of a table with `key`, or the number
/// of tables.
pub open spec fn table_index(tables: Seq<TableDesc>, key: u32, from: int) -> int
    decreases tables.len() - from,
{
    if from >= tables.len() {
        tables.len() as int
    } else if from >= 0 && tables[from].key_name == key {
        from
    } else {
        table_index(tables, key, from + 1)
    }
}

pub proof fn lemma_table_index(tables: Seq<TableDesc>, key: u32, from: int)
    requires
        0 <= from <= tables.len(),
    ensures
        from <= table_index(tables, key, from) <= tables.len(),
        table_index(tables, key, from) < tables.len() ==> tables[table_index(tables, key, from)].key_name
            == key,
        forall|j: int| from <= j < table_index(tables, key, from) ==> #[trigger] tables[j].key_name != key,
    decreases tables.len() - from,
{
    if from < tables.len() && tables[from].key_name != key {
        lemma_table_index(tables, key, from + 1);
    }
}

/// Why a path step cannot be followed.
#[derive(Clone, Copy, Debug, PartialEq, Eq, Structural)]
pub enum NavError {
    /// No table of that name in the dataset.
    MissingName,
    /// The table does not hold file offsets to datasets.
    WrongType,
    /// The table's data lies outside the storage, is compressed, or is not a
    /// whole number of file offsets.
    Malformed,
    /// The index is past the last file offset of the table.
    IndexOutOfRange,
}

/// Where the path step `name[index]` leads from a dataset.
pub open spec fn follow_spec(
    tables: Seq<TableDesc>,
    entries: Seq<LookupEntry>,
    strings: Seq<u8>,
    storage: Seq<u8>,
    name: Seq<u8>,
    index: u32,
) -> Result<crate::format::FileOffset, NavError> {
    let k = crate::names::name_index(entries, strings, name, 0);
    if k == entries.len() {
        Err(NavError::MissingName)
    } else {
        let t = table_index(tables, entries[k].hash, 0);
        if t == tables.len() {
            Err(NavError::MissingName)
        } else {
            let d = tables[t];
            let start = 8 * d.mem_start as int;
            let end = 8 * d.mem_end as int;
            if !(start <= end && end <= storage.len() && d.data_size <= end - start) {
                Err(NavError::Malformed)
            } else if d.type_info & (TYPE_HINT_MASK | TYPE_PRIM_MASK) != (TYPE_HINT_DATASET
                | TYPE_PRIM_U64) {
                Err(NavError::WrongType)
            } else if d.compress_info != COMPRESS_NONE || d.data_size % 16 != 0 {
                Err(NavError::Malformed)
            } else if index as int >= d.data_size / 16 {
                Err(NavError::IndexOutOfRange)
            } else {
                let at = start + 16 * index;
                Ok(
                    crate::format::FileOffset {
                        offset: get_u64(storage, at),
                        size: get_u64(storage, at + 8),
                    },
                )
            }
        }
    }
}

impl<'a> DatasetRef<'a> {
    /// Follows the path step `name[index]`: the table `name` must hold file
    /// offsets to datasets, and its element `index` is the child's region.
    pub fn follow(&self, name: &str, index: u32) -> (r: Result<crate::format::FileOffset, NavError>)
        ensures
            r == follow_spec(
                self.tables@,
                self.names.entries@,
                self.names.strings@,
                self.storage@,
                name.spec_bytes(),
                index,
            ),
    {
        proof {
            crate::names::lemma_name_index(self.names.entries@, self.names.strings@, name.spec_bytes(), 0);
        }
        let hash = match self.names.find(name) {
            Some(h) => h,
            None => {
                return Err(NavError::MissingName);
            },
        };
        let table = match self.find_table(hash) {
            Some(t) => t,
            None => {
                return Err(NavError::MissingName);
            },
        };
        let data = match self.get_data_ref(table) {
            Some(d) => d,
            None => {
                return Err(NavError::Malformed);
            },
        };
        if table.type_info & (TYPE_HINT_MASK | TYPE_PRIM_MASK) != (TYPE_HINT_DATASET | TYPE_PRIM_U64) {
            return Err(NavError::WrongType);
        }
        if data.compress_info != COMPRESS_NONE || data.bytes.len() % 16 != 0 {
            return Err(NavError::Malformed);
        }
        if index as usize >= data.bytes.len() / 16 {
            return Err(NavError::IndexOutOfRange);
        }
        let at = index as usize * 16;
        let offset = read_u64(data.bytes, at);
        let size = read_u64(data.bytes, at + 8);
        proof {
            let start = 8 * table.mem_start as int;
            assert(data.bytes@[at as int] == self.storage@[start + at]);
            assert forall|t: int| 0 <= t < 16 implies #[trigger] data.bytes@[at + t] == self.storage@[start + at + t] by {
            }
            assert(get_u64(data.bytes@, at as int) == get_u64(self.storage@, start + at)) by {
                assert(data.bytes@[at + 0] == self.storage@[start + at + 0]);
                assert(data.bytes@[at + 1] == self.storage@[start + at + 1]);
                assert(data.bytes@[at + 2] == self.storage@[start + at + 2]);
                assert(data.bytes@[at + 3] == self.storage@[start + at + 3]);
                assert(data.bytes@[at + 4] == self.storage@[start + at + 4]);
                assert(data.bytes@[at + 5] == self.storage@[start + at + 5]);
                assert(data.bytes@[at + 6] == self.storage@[start + at + 6]);
                assert(data.bytes@[at + 7] == self.storage@[start + at + 7]);
            }
            assert(get_u64(data.bytes@, at + 8) == get_u64(self.storage@, start + at + 8)) by {
                assert(data.bytes@[at + 8] == self.storage@[start + at + 8]);
                assert(data.bytes@[at + 9] == self.storage@[start + at + 9]);
                assert(data.bytes@[at + 10] == self.storage@[start + at + 10]);
                assert(data.bytes@[at + 11] == self.storage@[start + at + 11]);
                assert(data.bytes@[at + 12] == self.storage@[start + at + 12]);
                assert(data.bytes@[at + 13] == self.storage@[start + at + 13]);
                assert(data.bytes@[at + 14] == self.storage@[start + at + 14]);
                assert(data.bytes@[at + 15] == self.storage@[start + at + 15]);
            }
        }
        Ok(crate::format::FileOffset { offset, size })
    }
}

/// What to do after one element of a path.
#[derive(Clone, Copy, Debug, PartialEq, Eq, Structural)]
pub enum WalkStep {
    /// Read the child dataset in this region and go on with the rest.
    Descend(crate::format::FileOffset),
    /// The path ends at the table with this key name.
    Table(u32),
}

/// Why a path cannot be walked.
#[derive(Clone, Copy, Debug, PartialEq, Eq, Structural)]
pub enum WalkError {
    /// The path text is malformed, or a table name is not its last element.
    Malformed,
    /// The last element names no table of the dataset.
    MissingName,
    /// A `name[index]` element cannot be followed.
    Nav(NavError),
    /// The element leads back to a region already visited.
    Cycle,
}

/// The outcome of walking the first element of path `b` from a dataset,
/// having visited the regions in `visited`.
pub open spec fn walk_spec(
    tables: Seq<TableDesc>,
    entries: Seq<LookupEntry>,
    strings: Seq<u8>,
    storage: Seq<u8>,
    b: Seq<u8>,
    visited: Seq<crate::format::FileOffset>,
) -> Result<WalkStep, WalkError> {
    let e = crate::path::element_of(b);
    if b.len() == 0 || crate::path::two_open(e) {
        Err(WalkError::Malformed)
    } else {
        match crate::path::element_spec(e) {
            Err(_) => Err(WalkError::Malformed),
            Ok(crate::path::PathElSpec::Dir(name, index)) => match follow_spec(
                tables,
                entries,
                strings,
                storage,
                name,
                index,
            ) {
                Err(n) => Err(WalkError::Nav(n)),
                Ok(fo) => if visited.contains(fo) {
                    Err(WalkError::Cycle)
                } else {
                    Ok(WalkStep::Descend(fo))
                },
            },
            Ok(crate::path::PathElSpec::Name(name)) => if crate::path::rest_of(b).len() != 0 {
                Err(WalkError::Malformed)
            } else {
                let k = crate::names::name_index(entries, strings, name, 0);
                if k < entries.len() {
                    Ok(WalkStep::Table(entries[k].hash))
                } else {
                    Err(WalkError::MissingName)
                }
            },
        }
    }
}

/// Whether `fo` is among `visited`.
fn contains_offset(visited: &[crate::format::FileOffset], fo: crate::format::FileOffset) -> (r: bool)
    ensures
        r == visited@.contains(fo),
{
    let mut i: usize = 0;
    while i < visited.len()
        invariant
            i <= visited@.len(),
            forall|j: int| 0 <= j < i ==> visited@[j] != fo,
        decreases visited@.len() - i,
    {
        if visited[i] == fo {
            assert(visited@[i as int] == fo);
            return true;
        }
        i += 1;
    }
    false
}

impl<'a> DatasetRef<'a> {
    /// Walks the first element of `path` from this dataset: a `name[index]`
    /// leads to a child region not visited before, a final `name` to a table.
    /// `path` keeps what follows the element.
    pub fn walk_step<'p>(&self, path: &mut &'p str, visited: &[crate::format::FileOffset]) -> (r: Result<
        WalkStep,
        WalkError,
    >)
        ensures
            r == walk_spec(
                self.tables@,
                self.names.entries@,
                self.names.strings@,
                self.storage@,
                (*old(path)).spec_bytes(),
                visited@,
            ),
    {
        match crate::path::PathEl::parse(path) {
            Err(_) => Err(WalkError::Malformed),
            Ok(crate::path::PathEl::Dir { name, index }) => match self.follow(name, index) {
                Err(n) => Err(WalkError::Nav(n)),
                Ok(fo) => if contains_offset(visited, fo) {
                    Err(WalkError::Cycle)
                } else {
                    Ok(WalkStep::Descend(fo))
                },
            },
            Ok(crate::path::PathEl::Name(name)) => {
                if !path.is_empty() {
                    return Err(WalkError::Malformed);
                }
                proof {
                    crate::names::lemma_name_index(self.names.entries@, self.names.strings@, name.spec_bytes(), 0);
                }
                match self.names.find(name) {
                    Some(h) => Ok(WalkStep::Table(h)),
                    None => Err(WalkError::MissingName),
                }
            },
        }
    }
}

proof fn lemma_prefix_trans_pub(a: Seq<u8>, b: Seq<u8>, c: Seq<u8>)
    requires
        same_prefix(a, b),
        same_prefix(b, c),
    ensures
        same_prefix(a, c),
{
    assert(a.take(c.len() as int) =~= c) by {
        assert forall|t: int| 0 <= t < c.len() implies a.take(c.len() as int)[t] == c[t] by {
            assert(a.take(b.len() as int)[t] == a[t]);
            assert(b.take(c.len() as int)[t] == b[t]);
        }
    }
}

} // verus!
