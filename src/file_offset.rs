use vstd::prelude::*;
use crate::format::FileOffset;

verus! {

/// Parse errors.
#[derive(Clone, Copy, Debug, PartialEq, Eq, Structural)]
#[non_exhaustive]
pub enum ParseError {
    /// The text or the bytes do not have the expected structure.
    InvalidFormat,
    /// A declared size or index lies outside the buffer.
    OutOfBounds,
    /// A number does not fit the field it is encoded in.
    Overflow,
    /// A number could not be read.
    ParseIntError,
}

/// `x` rounded up to the next multiple of 16.
pub open spec fn round_up16(x: nat) -> nat {
    if x % 16 == 0 {
        x
    } else {
        (x + 16 - x % 16) as nat
    }
}

/// Places a region of `size` bytes at the end of a file of `file_len` bytes:
/// the offset is the file length rounded up to 16 (at least 16), the size is
/// `size` rounded up to 16 (at least 16).
pub fn allocate_region(file_len: u64, size: u64) -> (r: FileOffset)
    requires
        file_len <= u64::MAX - 16,
        size <= u64::MAX - 16,
    ensures
        r.offset == if file_len == 0 { 16 } else { round_up16(file_len as nat) },
        r.size == if size == 0 { 16 } else { round_up16(size as nat) },
        r.offset % 16 == 0,
        r.size % 16 == 0,
        r.offset >= file_len,
        file_len > 0 ==> r.offset < file_len + 16,
        r.size >= size,
        size > 0 ==> r.size < size + 16,
{
    let offset = round16(file_len);
    let size = round16(size);
    FileOffset { offset, size }
}

fn round16(x: u64) -> (r: u64)
    requires
        x <= u64::MAX - 16,
    ensures
        r == if x == 0 { 16 } else { round_up16(x as nat) },
{
    if x == 0 {
        16
    } else {
        let y = x - 1;
        let m = y & 0xf;
        assert(y & 0xf == y % 16) by (bit_vector);
        x - 1 - m + 16
    }
}

/// The bytes to write at region `fo` for data `data`: the data, then zero
/// bytes up to the region's size. `None` when the region is null, not
/// 16-byte aligned, or smaller than the data.
pub fn region_image(fo: FileOffset, data: &[u8]) -> (r: Option<Vec<u8>>)
    ensures
        r is Some <==> (!fo.spec_is_null() && fo.spec_is_aligned() && data@.len() <= fo.size),
        r matches Some(v) ==> {
            &&& v@.len() == fo.size
            &&& v@.take(data@.len() as int) == data@
            &&& forall|i: int| data@.len() <= i < v@.len() ==> v@[i] == 0
        },
{
    if fo.is_null() || !fo.is_aligned() || (data.len() as u64) > fo.size {
        return None;
    }
    let mut v: Vec<u8> = Vec::new();
    let mut i: usize = 0;
    while i < data.len()
        invariant
            i <= data@.len(),
            v@ == data@.take(i as int),
        decreases data@.len() - i,
    {
        v.push(data[i]);
        i += 1;
        assert(data@.take(i as int) =~= data@.take(i - 1).push(data@[i - 1]));
    }
    assert(data@.take(i as int) =~= data@);
    let mut k: u64 = data.len() as u64;
    while k < fo.size
        invariant
            data@.len() <= k <= fo.size,
            v@.len() == k,
            v@.take(data@.len() as int) == data@,
            forall|j: int| data@.len() <= j < v@.len() ==> v@[j] == 0,
        decreases fo.size - k,
    {
        let ghost before = v@;
        v.push(0);
        k += 1;
        assert(v@.take(data@.len() as int) =~= before.take(data@.len() as int));
    }
    Some(v)
}

} // verus!
