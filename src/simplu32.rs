//! SimpleU32: a byte-stream codec for sequences of `u32`.
//!
//! Every opcode starts with a header byte whose leading bits select it:
//! `00` small delta, `01` medium delta, `10` lookup index, `1100` and `1101`
//! large deltas, `1110` repeat of the last value, `1111` raw values.
use vstd::prelude::*;
use crate::compress::{hash32, spec_hash32};
use crate::bytes::{get_u32, push_u32, read_u32, u32_le, lemma_get_u32_at};

verus! {

pub const OP_DELTA1: u8 = 0b00_000000;
pub const OP_DELTA2: u8 = 0b01_000000;
pub const OP_INDEX: u8 = 0b10_000000;
pub const OP_DELTA3: u8 = 0b1100_0000;
pub const OP_DELTA4: u8 = 0b1101_0000;
pub const OP_REPEAT: u8 = 0b1110_0000;
pub const OP_VALUES: u8 = 0b1111_0000;

/// Half the range of each delta opcode: the field of `DELTAk` holds `[-half, half)`.
pub const DELTA1_HALF: u32 = 32;
pub const DELTA2_HALF: u32 = 8192;
pub const DELTA3_HALF: u32 = 524288;
pub const DELTA4_HALF: u32 = 134217728;

pub const LOOKUP_LEN: usize = 64;
pub const REPEAT_MAX: usize = 16;
pub const VALUES_MAX: usize = 16;

/// What the decoder has built so far.
pub struct CodecState {
    /// The last value written (advanced by one after a short repeat).
    pub lastv: u32,
    /// The table of recently seen values, indexed by `slot`.
    pub lookup: Seq<u32>,
    /// The values decoded so far.
    pub out: Seq<u32>,
}

/// The lookup slot of a value.
pub open spec fn slot(v: u32) -> int {
    (spec_hash32(v) % 64) as int
}

/// The state before the first byte: `lastv` 0 and a table of zeros.
pub open spec fn initial() -> CodecState {
    CodecState { lastv: 0, lookup: Seq::new(64, |_i: int| 0u32), out: Seq::empty() }
}

/// Writes a value that also enters the lookup table.
pub open spec fn emit(s: CodecState, v: u32) -> CodecState {
    CodecState { lastv: v, lookup: s.lookup.update(slot(v), v), out: s.out.push(v) }
}

/// The amount a delta field adds to `lastv` (mod 2^32): the field is a signed
/// number of `2 * half` values, a non-negative field `f` stands for `f + 1`.
pub open spec fn delta_amount(raw: u32, half: u32) -> u32 {
    if raw >= half {
        (raw + (0x1_0000_0000 - 2 * half)) as u32
    } else {
        (raw + 1) as u32
    }
}

pub open spec fn step_delta(s: CodecState, raw: u32, half: u32) -> CodecState {
    emit(s, s.lastv.wrapping_add(delta_amount(raw, half)))
}

/// The little-endian `u32` at `b[j..j + 4]`.
pub open spec fn le32(b: Seq<u8>, j: int) -> u32 {
    (b[j] as u32) | ((b[j + 1] as u32) << 8u32) | ((b[j + 2] as u32) << 16u32) | ((b[j + 3] as u32)
        << 24u32)
}

pub open spec fn delta2_raw(b0: u8, b1: u8) -> u32 {
    (((b0 & 0x3f) as u32) << 8u32) | (b1 as u32)
}

pub open spec fn delta3_raw(b0: u8, b1: u8, b2: u8) -> u32 {
    (((b0 & 0x0f) as u32) << 16u32) | ((b1 as u32) << 8u32) | (b2 as u32)
}

pub open spec fn delta4_raw(b0: u8, b1: u8, b2: u8, b3: u8) -> u32 {
    (((b0 & 0x0f) as u32) << 24u32) | ((b1 as u32) << 16u32) | ((b2 as u32) << 8u32) | (b3 as u32)
}

/// The number of values a `REPEAT` or `VALUES` header stands for.
pub open spec fn count_of(b0: u8) -> nat {
    (b0 & 0x0f) as nat + 1
}

/// The byte length of the opcode that starts with `b0`.
pub open spec fn op_len(b0: u8) -> nat {
    if b0 & 0xc0 == 0x00 {
        1
    } else if b0 & 0xc0 == 0x40 {
        2
    } else if b0 & 0xc0 == 0x80 {
        1
    } else if b0 & 0xf0 == 0xc0 {
        3
    } else if b0 & 0xf0 == 0xd0 {
        4
    } else if b0 & 0xf0 == 0xe0 {
        1
    } else {
        1 + 4 * count_of(b0)
    }
}

/// Writes the first `c` raw values of a `VALUES` opcode `b` (header included).
pub open spec fn apply_values(s: CodecState, b: Seq<u8>, c: nat) -> CodecState
    decreases c,
{
    if c == 0 {
        s
    } else {
        emit(apply_values(s, b, (c - 1) as nat), le32(b, 1 + 4 * (c - 1)))
    }
}

/// Repeats `lastv` `c` times; a repeat shorter than the maximum then advances `lastv`.
pub open spec fn apply_repeat(s: CodecState, c: nat) -> CodecState {
    CodecState {
        lastv: if c != 16 { s.lastv.wrapping_add(1) } else { s.lastv },
        lookup: s.lookup,
        out: s.out + Seq::new(c, |_i: int| s.lastv),
    }
}

/// The effect of one whole opcode `b` (`b.len() == op_len(b[0])`).
pub open spec fn apply_op(s: CodecState, b: Seq<u8>) -> CodecState {
    let b0 = b[0];
    if b0 & 0xc0 == 0x00 {
        step_delta(s, (b0 & 0x3f) as u32, DELTA1_HALF)
    } else if b0 & 0xc0 == 0x40 {
        step_delta(s, delta2_raw(b0, b[1]), DELTA2_HALF)
    } else if b0 & 0xc0 == 0x80 {
        let v = s.lookup[(b0 & 0x3f) as int];
        CodecState { lastv: v, lookup: s.lookup, out: s.out.push(v) }
    } else if b0 & 0xf0 == 0xc0 {
        step_delta(s, delta3_raw(b0, b[1], b[2]), DELTA3_HALF)
    } else if b0 & 0xf0 == 0xd0 {
        step_delta(s, delta4_raw(b0, b[1], b[2], b[3]), DELTA4_HALF)
    } else if b0 & 0xf0 == 0xe0 {
        apply_repeat(s, count_of(b0))
    } else {
        apply_values(s, b, count_of(b0))
    }
}

/// Decodes `rest` from state `s`; `None` when the last opcode is cut short.
pub open spec fn decode_from(s: CodecState, rest: Seq<u8>) -> Option<CodecState>
    decreases rest.len(),
{
    if rest.len() == 0 {
        Some(s)
    } else {
        let n = op_len(rest[0]);
        if n > rest.len() {
            None
        } else {
            decode_from(apply_op(s, rest.take(n as int)), rest.skip(n as int))
        }
    }
}

/// The values a whole stream decodes to, if every opcode in it is complete.
pub open spec fn decoded(stream: Seq<u8>) -> Option<Seq<u32>> {
    match decode_from(initial(), stream) {
        Some(s) => Some(s.out),
        None => None,
    }
}

proof fn lemma_values_len(s: CodecState, b: Seq<u8>, c: nat)
    ensures
        apply_values(s, b, c).out.len() == s.out.len() + c,
    decreases c,
{
    if c > 0 {
        lemma_values_len(s, b, (c - 1) as nat);
    }
}

proof fn lemma_op_grows(s: CodecState, b: Seq<u8>)
    requires
        b.len() > 0,
    ensures
        apply_op(s, b).out.len() > s.out.len(),
{
    let b0 = b[0];
    if b0 & 0xc0 == 0x00 || b0 & 0xc0 == 0x40 || b0 & 0xc0 == 0x80 {
    } else if b0 & 0xf0 == 0xc0 || b0 & 0xf0 == 0xd0 || b0 & 0xf0 == 0xe0 {
    } else {
        lemma_values_len(s, b, count_of(b0));
    }
}

/// Decoding never takes values away.
proof fn lemma_decode_grows(s: CodecState, rest: Seq<u8>)
    requires
        decode_from(s, rest) is Some,
    ensures
        decode_from(s, rest)->0.out.len() >= s.out.len(),
    decreases rest.len(),
{
    if rest.len() > 0 {
        let n = op_len(rest[0]);
        lemma_op_grows(s, rest.take(n as int));
        lemma_decode_grows(apply_op(s, rest.take(n as int)), rest.skip(n as int));
    }
}

/// Decoding a complete prefix, then the rest, decodes the whole.
proof fn lemma_decode_append(s: CodecState, a: Seq<u8>, b: Seq<u8>)
    requires
        decode_from(s, a) is Some,
    ensures
        decode_from(s, a + b) == decode_from(decode_from(s, a)->0, b),
    decreases a.len(),
{
    if a.len() > 0 {
        let n = op_len(a[0]);
        let ab = a + b;
        assert(ab[0] == a[0]);
        assert(ab.take(n as int) =~= a.take(n as int));
        assert(ab.skip(n as int) =~= a.skip(n as int) + b);
        lemma_decode_append(apply_op(s, a.take(n as int)), a.skip(n as int), b);
    } else {
        assert(a + b =~= b);
    }
}

/// A stream of exactly one whole opcode decodes to that opcode's effect.
proof fn lemma_decode_one(s: CodecState, op: Seq<u8>)
    requires
        op.len() > 0,
        op_len(op[0]) == op.len(),
    ensures
        decode_from(s, op) == Some(apply_op(s, op)),
{
    let n = op_len(op[0]);
    assert(op.take(n as int) =~= op);
    let rest = op.skip(n as int);
    assert(rest.len() == 0);
    assert(decode_from(apply_op(s, op), rest) == Some(apply_op(s, op)));
}

/// Appending one whole opcode to a stream that decodes applies that opcode.
proof fn lemma_push_op(stream: Seq<u8>, op: Seq<u8>)
    requires
        decode_from(initial(), stream) is Some,
        op.len() > 0,
        op_len(op[0]) == op.len(),
    ensures
        decode_from(initial(), stream + op) == Some(
            apply_op(decode_from(initial(), stream)->0, op),
        ),
{
    lemma_decode_append(initial(), stream, op);
    lemma_decode_one(decode_from(initial(), stream)->0, op);
}


proof fn lemma_values_prefix(s: CodecState, b1: Seq<u8>, b2: Seq<u8>, c: nat)
    requires
        b1.len() >= 1 + 4 * c,
        b2.len() >= 1 + 4 * c,
        forall|j: int| 1 <= j < 1 + 4 * c ==> b1[j] == b2[j],
    ensures
        apply_values(s, b1, c) == apply_values(s, b2, c),
    decreases c,
{
    if c > 0 {
        lemma_values_prefix(s, b1, b2, (c - 1) as nat);
        let j = 1 + 4 * (c - 1);
        assert(b1[j] == b2[j] && b1[j + 1] == b2[j + 1] && b1[j + 2] == b2[j + 2] && b1[j + 3]
            == b2[j + 3]);
    }
}

/// Every header byte falls in exactly one opcode class.
proof fn lemma_byte_classes(b: u8)
    ensures
        b & 0xc0 == 0x00 || b & 0xc0 == 0x40 || b & 0xc0 == 0x80 || b & 0xf0 == 0xc0 || b & 0xf0
            == 0xd0 || b & 0xf0 == 0xe0 || b & 0xf0 == 0xf0,
        b & 0xf0 == 0xc0 || b & 0xf0 == 0xd0 || b & 0xf0 == 0xe0 || b & 0xf0 == 0xf0 ==> b & 0xc0
            == 0xc0,
        (b & 0x3f) < 64,
        (b & 0x0f) < 16,
{
    assert(b & 0xc0 == 0x00 || b & 0xc0 == 0x40 || b & 0xc0 == 0x80 || b & 0xf0 == 0xc0 || b & 0xf0
        == 0xd0 || b & 0xf0 == 0xe0 || b & 0xf0 == 0xf0) by (bit_vector);
    assert(b & 0xf0 == 0xc0 || b & 0xf0 == 0xd0 || b & 0xf0 == 0xe0 || b & 0xf0 == 0xf0 ==> b & 0xc0
        == 0xc0) by (bit_vector);
    assert((b & 0x3f) < 64) by (bit_vector);
    assert((b & 0x0f) < 16) by (bit_vector);
}

/// `delta_amount` computed without overflow.
fn delta_amount_of(raw: u32, half: u32) -> (r: u32)
    requires
        half <= DELTA4_HALF,
        raw < 2 * half,
    ensures
        r == delta_amount(raw, half),
{
    if raw >= half {
        raw + (u32::MAX - 2 * half + 1)
    } else {
        raw + 1
    }
}

/// The state a decoder holds after writing `storage[..k]`.
pub open spec fn state_of(lastv: u32, lookup: Seq<u32>, storage: Seq<u32>, k: int) -> CodecState {
    CodecState { lastv, lookup, out: storage.take(k) }
}

/// Reads the field of the delta opcode at `stream[i]`: its raw bits, its half
/// range and where the next opcode starts; `None` when the opcode is cut short.
fn read_delta(stream: &[u8], i: usize) -> (r: Option<(u32, u32, usize)>)
    requires
        i < stream@.len(),
        stream@[i as int] & 0xc0 != 0x80,
        stream@[i as int] & 0xf0 != 0xe0,
        stream@[i as int] & 0xf0 != 0xf0,
    ensures
        r is None <==> op_len(stream@[i as int]) > stream@.len() - i,
        r matches Some((raw, half, next)) ==> {
            &&& next == i + op_len(stream@[i as int])
            &&& half <= DELTA4_HALF
            &&& raw < 2 * half
            &&& forall|s: CodecState|
                apply_op(s, #[trigger] stream@.skip(i as int).take(op_len(stream@[i as int]) as int))
                    == step_delta(s, raw, half)
        },
{
    let byte = stream[i];
    let ghost rest = stream@.skip(i as int);
    proof {
        lemma_byte_classes(byte);
    }
    if byte & 0xc0 == OP_DELTA1 {
        let raw = (byte & 0x3f) as u32;
        assert(raw < 64) by (bit_vector)
            requires
                raw == (byte & 0x3f) as u32,
        ;
        assert(rest.take(1)[0] == byte);
        Some((raw, DELTA1_HALF, i + 1))
    } else if byte & 0xc0 == OP_DELTA2 {
        if i + 1 >= stream.len() {
            return None;
        }
        let b1 = stream[i + 1];
        let raw = (((byte & 0x3f) as u32) << 8) | (b1 as u32);
        assert(raw < 16384) by (bit_vector)
            requires
                raw == (((byte & 0x3f) as u32) << 8u32) | (b1 as u32),
        ;
        assert(rest.take(2)[0] == byte && rest.take(2)[1] == b1);
        Some((raw, DELTA2_HALF, i + 2))
    } else if byte & 0xf0 == OP_DELTA3 {
        if 3 > stream.len() - i {
            return None;
        }
        let b1 = stream[i + 1];
        let b2 = stream[i + 2];
        let raw = (((byte & 0x0f) as u32) << 16) | ((b1 as u32) << 8) | (b2 as u32);
        assert(raw < 1048576) by (bit_vector)
            requires
                raw == (((byte & 0x0f) as u32) << 16u32) | ((b1 as u32) << 8u32) | (b2 as u32),
        ;
        assert(rest.take(3)[0] == byte && rest.take(3)[1] == b1 && rest.take(3)[2] == b2);
        Some((raw, DELTA3_HALF, i + 3))
    } else {
        if 4 > stream.len() - i {
            return None;
        }
        let b1 = stream[i + 1];
        let b2 = stream[i + 2];
        let b3 = stream[i + 3];
        let raw = (((byte & 0x0f) as u32) << 24) | ((b1 as u32) << 16) | ((b2 as u32) << 8) | (
        b3 as u32);
        assert(raw < 268435456) by (bit_vector)
            requires
                raw == (((byte & 0x0f) as u32) << 24u32) | ((b1 as u32) << 16u32) | ((b2 as u32)
                    << 8u32) | (b3 as u32),
        ;
        assert(rest.take(4)[0] == byte && rest.take(4)[1] == b1 && rest.take(4)[2] == b2
            && rest.take(4)[3] == b3);
        Some((raw, DELTA4_HALF, i + 4))
    }
}

/// Decodes the `VALUES` opcode at `stream[i]` into `storage[k..]`.
fn decode_values(
    storage: &mut [u32],
    k: usize,
    lookup: &mut Vec<u32>,
    lastv: u32,
    stream: &[u8],
    i: usize,
) -> (r: Option<(u32, usize, usize)>)
    requires
        i < stream@.len(),
        stream@[i as int] & 0xf0 == 0xf0,
        k <= old(storage)@.len(),
        old(lookup)@.len() == 64,
    ensures
        final(storage)@.len() == old(storage)@.len(),
        final(lookup)@.len() == 64,
        ({
            let cur = state_of(lastv, old(lookup)@, old(storage)@, k as int);
            let rest = stream@.skip(i as int);
            let nop = op_len(stream@[i as int]);
            match r {
                Some((lastv2, k2, next)) => {
                    &&& nop <= rest.len()
                    &&& next == i + nop
                    &&& k2 <= old(storage)@.len()
                    &&& state_of(lastv2, final(lookup)@, final(storage)@, k2 as int) == apply_op(
                        cur,
                        rest.take(nop as int),
                    )
                },
                None => decode_from(cur, rest) is None || decode_from(cur, rest)->0.out.len()
                    > old(storage)@.len(),
            }
        }),
{
    let ghost cur = state_of(lastv, lookup@, storage@, k as int);
    let ghost rest = stream@.skip(i as int);
    let ghost n = storage@.len();
    let byte = stream[i];
    proof {
        lemma_byte_classes(byte);
    }
    let ghost nop = op_len(byte);
    assert(nop == 1 + 4 * count_of(byte));
    let count = (byte & 0x0f) as usize + 1;
    let mut lv = lastv;
    let mut kk = k;
    let mut p = i + 1;
    let mut j: usize = 0;
    while j < count
        invariant
            j <= count,
            count == count_of(byte),
            p == i + 1 + 4 * j,
            i + 1 <= p <= stream@.len(),
            kk == cur.out.len() + j,
            kk == k + j,
            cur.out.len() == k,
            kk <= n,
            n == storage@.len(),
            n == old(storage)@.len(),
            cur == state_of(lastv, old(lookup)@, old(storage)@, k as int),
            lookup@.len() == 64,
            rest == stream@.skip(i as int),
            rest.len() == stream@.len() - i,
            rest[0] == byte,
            nop == 1 + 4 * count_of(byte),
            nop == op_len(byte),
            state_of(lv, lookup@, storage@, kk as int) == apply_values(cur, rest, j as nat),
        decreases count - j,
    {
        if 4 > stream.len() - p {
            assert(count >= j + 1);
            assert(nop >= 1 + 4 * (j + 1));
            assert(op_len(rest[0]) > rest.len());
            return None;
        }
        let v = (stream[p] as u32) | ((stream[p + 1] as u32) << 8) | ((stream[p + 2] as u32) << 16)
            | ((stream[p + 3] as u32) << 24);
        proof {
            let q: int = 1 + 4 * (j as int);
            assert(rest[q] == stream@[p as int]);
            assert(rest[q + 1] == stream@[p + 1]);
            assert(rest[q + 2] == stream@[p + 2]);
            assert(rest[q + 3] == stream@[p + 3]);
        }
        p += 4;
        if kk >= storage.len() {
            proof {
                if decode_from(cur, rest) is Some {
                    assert(rest.len() > 0 && op_len(rest[0]) == nop);
                    assert(nop <= rest.len());
                    lemma_values_prefix(cur, rest.take(nop as int), rest, count as nat);
                    lemma_values_len(cur, rest, count as nat);
                    assert(rest.take(nop as int)[0] == byte);
                    assert(apply_op(cur, rest.take(nop as int)) == apply_values(cur, rest, count as nat));
                    lemma_decode_grows(apply_op(cur, rest.take(nop as int)), rest.skip(nop as int));
                    assert(decode_from(cur, rest) == decode_from(apply_op(cur, rest.take(nop as int)), rest.skip(nop as int)));
                    assert(apply_op(cur, rest.take(nop as int)).out.len() == k + count);
                    assert(decode_from(cur, rest)->0.out.len() > n);
                }
            }
            return None;
        }
        let ghost before = storage@.take(kk as int);
        storage[kk] = v;
        kk += 1;
        lv = v;
        let index = (hash32(v) % 64) as usize;
        lookup.set(index, v);
        j += 1;
        proof {
            assert(storage@.take(kk as int) =~= before.push(v));
        }
    }
    proof {
        lemma_values_prefix(cur, rest.take(nop as int), rest, count as nat);
    }
    Some((lv, kk, p))
}

/// Decodes `stream` into `storage`, which must be filled exactly.
///
/// Returns `true` when every opcode of the stream is complete and the stream
/// holds exactly `storage.len()` values; those values are then in `storage`.
pub fn decompress(storage: &mut [u32], stream: &[u8]) -> (r: bool)
    ensures
        final(storage)@.len() == old(storage)@.len(),
        r == (decoded(stream@) is Some && decoded(stream@)->0.len() == old(storage)@.len()),
        r ==> final(storage)@ == decoded(stream@)->0,
{
    let n = storage.len();
    let mut lastv: u32 = 0;
    let mut lookup: Vec<u32> = Vec::new();
    while lookup.len() < LOOKUP_LEN
        invariant
            lookup@.len() <= 64,
            forall|j: int| 0 <= j < lookup@.len() ==> lookup@[j] == 0,
        decreases 64 - lookup@.len(),
    {
        lookup.push(0);
    }
    assert(lookup@ =~= initial().lookup);
    let mut i: usize = 0;
    let mut k: usize = 0;
    assert(storage@.take(0) =~= initial().out);
    assert(stream@.skip(0) =~= stream@);
    while i < stream.len()
        invariant
            i <= stream@.len(),
            k <= n,
            n == old(storage)@.len(),
            storage@.len() == n,
            lookup@.len() == 64,
            decode_from(initial(), stream@) == decode_from(
                state_of(lastv, lookup@, storage@, k as int),
                stream@.skip(i as int),
            ),
        decreases stream@.len() - i,
    {
        let ghost cur = state_of(lastv, lookup@, storage@, k as int);
        let ghost rest = stream@.skip(i as int);
        let byte = stream[i];
        assert(rest[0] == byte);
        proof {
            lemma_byte_classes(byte);
        }
        let ghost nop = op_len(byte);
        if byte & 0xf0 == OP_VALUES {
            match decode_values(storage, k, &mut lookup, lastv, stream, i) {
                Some((lastv2, k2, next)) => {
                    lastv = lastv2;
                    k = k2;
                    i = next;
                    assert(rest.skip(nop as int) =~= stream@.skip(i as int));
                },
                None => {
                    return false;
                },
            }
        } else if byte & 0xf0 == OP_REPEAT {
            let count = (byte & 0x0f) as usize + 1;
            assert(rest.take(1)[0] == byte);
            assert(rest.skip(1) =~= stream@.skip(i + 1));
            if count > n - k {
                proof {
                    if decode_from(cur, rest) is Some {
                        lemma_decode_grows(apply_op(cur, rest.take(1)), rest.skip(1));
                    }
                }
                return false;
            }
            let mut j: usize = 0;
            while j < count
                invariant
                    j <= count,
                    n == old(storage)@.len(),
                    count <= n - (k - j),
                    j <= k,
                    storage@.len() == n,
                    storage@.take(k as int) =~= cur.out + Seq::new(j as nat, |_t: int| lastv),
                    cur.out.len() == k - j,
                decreases count - j,
            {
                let ghost before = storage@.take(k as int);
                storage[k] = lastv;
                k += 1;
                j += 1;
                assert(storage@.take(k as int) =~= before.push(lastv));
                assert(storage@.take(k as int) =~= cur.out + Seq::new(j as nat, |_t: int| lastv));
            }
            if count != REPEAT_MAX {
                lastv = lastv.wrapping_add(1);
            }
            i += 1;
        } else {
            let v: u32;
            let next: usize;
            let enters: bool;
            if byte & 0xc0 == OP_INDEX {
                v = lookup[(byte & 0x3f) as usize];
                next = i + 1;
                enters = false;
                assert(rest.take(1)[0] == byte);
            } else {
                match read_delta(stream, i) {
                    Some((raw, half, nx)) => {
                        v = lastv.wrapping_add(delta_amount_of(raw, half));
                        next = nx;
                        enters = true;
                        assert(apply_op(cur, rest.take(nop as int)) == step_delta(cur, raw, half));
                    },
                    None => {
                        return false;
                    },
                }
            }
            assert(rest.skip(nop as int) =~= stream@.skip(next as int));
            if k >= n {
                proof {
                    if decode_from(cur, rest) is Some {
                        lemma_decode_grows(apply_op(cur, rest.take(nop as int)), rest.skip(nop as int));
                    }
                }
                return false;
            }
            let ghost before = storage@.take(k as int);
            storage[k] = v;
            k += 1;
            lastv = v;
            if enters {
                let index = (hash32(v) % 64) as usize;
                lookup.set(index, v);
            }
            i = next;
            assert(storage@.take(k as int) =~= before.push(v));
        }
    }
    proof {
        assert(stream@.skip(i as int).len() == 0);
        assert(storage@.take(k as int).len() == k);
        if k == n {
            assert(storage@.take(k as int) =~= storage@);
        }
    }
    k == n
}

/// The bytes of `out` from `hp` on are one open `VALUES` opcode holding
/// `unc` values, after a stream prefix that decodes.
pub open spec fn open_run(out: Seq<u8>, hp: int, unc: nat) -> bool {
    &&& 1 <= unc <= 16
    &&& 0 <= hp
    &&& hp + 1 + 4 * unc == out.len()
    &&& out[hp] == (0xf0u8 | ((unc - 1) as u8))
    &&& decode_from(initial(), out.take(hp)) is Some
}

proof fn lemma_le32_bytes(v: u32)
    ensures
        ((v & 0xff) as u8 as u32) | ((((v >> 8u32) & 0xff) as u8 as u32) << 8u32) | ((((v >> 16u32)
            & 0xff) as u8 as u32) << 16u32) | ((((v >> 24u32) & 0xff) as u8 as u32) << 24u32) == v,
{
    assert(((v & 0xff) as u8 as u32) | ((((v >> 8u32) & 0xff) as u8 as u32) << 8u32) | ((((v
        >> 16u32) & 0xff) as u8 as u32) << 16u32) | ((((v >> 24u32) & 0xff) as u8 as u32) << 24u32)
        == v) by (bit_vector);
}

proof fn lemma_values_header(c: u8)
    requires
        c < 16,
    ensures
        (0xf0u8 | c) & 0xf0 == 0xf0,
        (0xf0u8 | c) & 0xc0 == 0xc0,
        ((0xf0u8 | c) & 0x0f) == c,
        c < 15 ==> (0xf0u8 | c) + 1 == (0xf0u8 | ((c + 1) as u8)),
        c < 15 ==> (0xf0u8 | c) + 1 < 256,
{
    assert((0xf0u8 | c) & 0xf0 == 0xf0) by (bit_vector);
    assert((0xf0u8 | c) & 0xc0 == 0xc0) by (bit_vector);
    assert(c < 16 ==> ((0xf0u8 | c) & 0x0f) == c) by (bit_vector);
    assert(c < 15 ==> (0xf0u8 | c) + 1 == (0xf0u8 | ((c + 1) as u8))) by (bit_vector);
    assert(c < 15 ==> (0xf0u8 as u32 | c as u32) + 1 < 256) by (bit_vector);
}

/// The four little-endian bytes of `v`.
pub open spec fn le4(v: u32) -> Seq<u8> {
    seq![(v & 0xff) as u8, ((v >> 8u32) & 0xff) as u8, ((v >> 16u32) & 0xff) as u8, ((v >> 24u32)
        & 0xff) as u8]
}

/// The header byte of a `REPEAT` of `run` values.
pub open spec fn repeat_byte(run: nat) -> u8 {
    OP_REPEAT | ((run - 1) as u8)
}

/// The field bits for step `d` in a delta opcode of range `half`: `d - 1` for
/// a forward step, the two's complement of the step (mod `2 * half`) for a
/// backward one.
pub open spec fn delta_raw_spec(d: u32, half: u32) -> u32 {
    if d <= half {
        (d - 1) as u32
    } else {
        (d - (0x1_0000_0000 - 2 * half)) as u32
    }
}

/// The shortest delta opcode for step `d` (mod 2^32).
pub open spec fn delta_bytes(d: u32) -> Seq<u8> {
    if fits(d, DELTA1_HALF) {
        let raw = delta_raw_spec(d, DELTA1_HALF);
        seq![OP_DELTA1 | (raw as u8)]
    } else if fits(d, DELTA2_HALF) {
        let raw = delta_raw_spec(d, DELTA2_HALF);
        seq![OP_DELTA2 | ((raw >> 8u32) as u8), (raw & 0xff) as u8]
    } else if fits(d, DELTA3_HALF) {
        let raw = delta_raw_spec(d, DELTA3_HALF);
        seq![OP_DELTA3 | ((raw >> 16u32) as u8), ((raw >> 8u32) & 0xff) as u8, (raw & 0xff) as u8]
    } else {
        let raw = delta_raw_spec(d, DELTA4_HALF);
        seq![
            OP_DELTA4 | ((raw >> 24u32) as u8),
            ((raw >> 16u32) & 0xff) as u8,
            ((raw >> 8u32) & 0xff) as u8,
            (raw & 0xff) as u8,
        ]
    }
}

/// The encoder's state: the last value, the pending repeat run, the number of
/// values in the open `VALUES` opcode, the lookup table, and the bytes so far.
pub struct EncState {
    pub lastv: u32,
    pub run: nat,
    pub unc: nat,
    pub lookup: Seq<u32>,
    pub out: Seq<u8>,
}

pub open spec fn enc_initial() -> EncState {
    EncState { lastv: 0, run: 0, unc: 0, lookup: Seq::new(64, |_i: int| 0u32), out: Seq::empty() }
}

/// Writes a value that differs from `lastv`, with no repeat pending: an
/// `INDEX` when the lookup slot holds it; else the value enters the slot and
/// goes out as the shortest delta, or as a raw value that opens or extends a
/// `VALUES` opcode (at most 16 values each).
pub open spec fn enc_value(s: EncState, v: u32) -> EncState {
    let idx = slot(v);
    if s.lookup[idx] == v {
        EncState { lastv: v, unc: 0, out: s.out.push(OP_INDEX | (idx as u8)), ..s }
    } else {
        let lookup = s.lookup.update(idx, v);
        let d = v.wrapping_sub(s.lastv);
        if fits(d, DELTA4_HALF) {
            EncState { lastv: v, unc: 0, lookup, out: s.out + delta_bytes(d), run: s.run }
        } else if s.unc == 0 || s.unc == 16 {
            EncState { lastv: v, unc: 1, lookup, out: s.out.push(OP_VALUES) + le4(v), run: s.run }
        } else {
            let pos = s.out.len() - (1 + 4 * s.unc);
            EncState {
                lastv: v,
                unc: s.unc + 1,
                lookup,
                out: s.out.update(pos, (s.out[pos] + 1) as u8) + le4(v),
                run: s.run,
            }
        }
    }
}

/// One input value: a value equal to `lastv` extends the repeat run (emitted
/// at 16); any other value first emits a pending run, after which `lastv`
/// advances by one and may start a new run; otherwise `enc_value`.
pub open spec fn enc_step(s: EncState, v: u32) -> EncState {
    if v == s.lastv {
        if s.run + 1 == 16 {
            EncState { run: 0, unc: 0, out: s.out.push(repeat_byte(16)), ..s }
        } else {
            EncState { run: s.run + 1, ..s }
        }
    } else if s.run > 0 {
        let s1 = EncState {
            run: 0,
            unc: 0,
            lastv: s.lastv.wrapping_add(1),
            out: s.out.push(repeat_byte(s.run)),
            ..s
        };
        if v == s1.lastv {
            EncState { run: 1, ..s1 }
        } else {
            enc_value(s1, v)
        }
    } else {
        enc_value(s, v)
    }
}

pub open spec fn enc_fold(data: Seq<u32>) -> EncState
    decreases data.len(),
{
    if data.len() == 0 {
        enc_initial()
    } else {
        enc_step(enc_fold(data.drop_last()), data.last())
    }
}

/// The SimpleU32 stream of `data`: every value through `enc_step`, then a
/// pending repeat run.
pub open spec fn encode_spec(data: Seq<u32>) -> Seq<u8> {
    let s = enc_fold(data);
    if s.run > 0 {
        s.out.push(repeat_byte(s.run))
    } else {
        s.out
    }
}

/// Appends the four little-endian bytes of `v`.
fn push_le32(out: &mut Vec<u8>, v: u32)
    ensures
        final(out)@ == old(out)@ + le4(v),
        final(out)@.len() == old(out)@.len() + 4,
        final(out)@.take(old(out)@.len() as int) == old(out)@,
        le32(final(out)@, old(out)@.len() as int) == v,
{
    let ghost n = out@.len();
    out.push((v & 0xff) as u8);
    out.push(((v >> 8) & 0xff) as u8);
    out.push(((v >> 16) & 0xff) as u8);
    out.push(((v >> 24) & 0xff) as u8);
    proof {
        lemma_le32_bytes(v);
        assert(out@.take(n as int) =~= old(out)@);
        assert(out@ =~= old(out)@ + le4(v));
    }
}

/// Appends a `REPEAT` of `run` copies of the last value.
fn push_repeat(out: &mut Vec<u8>, run: usize)
    requires
        1 <= run <= 16,
        decode_from(initial(), old(out)@) is Some,
    ensures
        final(out)@ == old(out)@.push(repeat_byte(run as nat)),
        decode_from(initial(), final(out)@) == Some(
            apply_repeat(decode_from(initial(), old(out)@)->0, run as nat),
        ),
{
    let b0 = OP_REPEAT | (run - 1) as u8;
    let c = (run - 1) as u8;
    assert(c < 16 ==> (0xe0u8 | c) & 0xf0 == 0xe0 && (0xe0u8 | c) & 0xc0 == 0xc0) by (bit_vector);
    assert(c < 16 ==> ((0xe0u8 | c) & 0x0f) == c) by (bit_vector);
    let ghost old_out = out@;
    out.push(b0);
    proof {
        assert(out@ =~= old_out + seq![b0]);
        lemma_push_op(old_out, seq![b0]);
    }
}

/// Appends an `INDEX` of lookup slot `index`.
fn push_index(out: &mut Vec<u8>, index: usize)
    requires
        index < 64,
        decode_from(initial(), old(out)@) is Some,
    ensures
        final(out)@ == old(out)@.push(OP_INDEX | (index as u8)),
        ({
            let d = decode_from(initial(), old(out)@)->0;
            decode_from(initial(), final(out)@) == Some(
                CodecState { lastv: d.lookup[index as int], lookup: d.lookup, out: d.out.push(d.lookup[index as int]) },
            )
        }),
{
    let i = index as u8;
    let b0 = OP_INDEX | i;
    assert(i < 64 ==> (0x80u8 | i) & 0xc0 == 0x80 && ((0x80u8 | i) & 0x3f) == i) by (bit_vector);
    let ghost old_out = out@;
    out.push(b0);
    proof {
        assert(out@ =~= old_out + seq![b0]);
        lemma_push_op(old_out, seq![b0]);
    }
}

/// Whether a step `d` (mod 2^32, non-zero) fits the delta opcode of range `half`.
pub open spec fn fits(d: u32, half: u32) -> bool {
    d <= half || d >= 0x1_0000_0000 - half
}

/// The field bits that stand for step `d` in a delta opcode of range `half`.
fn delta_raw(d: u32, half: u32) -> (raw: u32)
    requires
        1 <= half <= DELTA4_HALF,
        d != 0,
        fits(d, half),
    ensures
        raw < 2 * half,
        raw == delta_raw_spec(d, half),
        delta_amount(raw, half) == d,
{
    if d <= half {
        d - 1
    } else {
        d - (u32::MAX - 2 * half + 1)
    }
}

/// Appends the shortest delta opcode that moves the last value by `d` (mod 2^32).
fn push_delta(out: &mut Vec<u8>, d: u32)
    requires
        d != 0,
        fits(d, DELTA4_HALF),
        decode_from(initial(), old(out)@) is Some,
    ensures
        final(out)@ == old(out)@ + delta_bytes(d),
        ({
            let s = decode_from(initial(), old(out)@)->0;
            decode_from(initial(), final(out)@) == Some(emit(s, s.lastv.wrapping_add(d)))
        }),
{
    let ghost old_out = out@;
    let ghost op: Seq<u8>;
    if d <= DELTA1_HALF || d >= u32::MAX - DELTA1_HALF + 1 {
        let raw = delta_raw(d, DELTA1_HALF);
        let b0 = OP_DELTA1 | (raw as u8);
        assert(raw < 64 ==> (0x00u8 | (raw as u8)) & 0xc0 == 0x00 && (((0x00u8 | (raw as u8))
            & 0x3f) as u32) == raw) by (bit_vector);
        out.push(b0);
        proof {
            op = seq![b0];
        }
    } else if d <= DELTA2_HALF || d >= u32::MAX - DELTA2_HALF + 1 {
        let raw = delta_raw(d, DELTA2_HALF);
        let b0 = OP_DELTA2 | ((raw >> 8) as u8);
        let b1 = (raw & 0xff) as u8;
        assert(raw < 16384 ==> (0x40u8 | ((raw >> 8u32) as u8)) & 0xc0 == 0x40 && delta2_raw(
            0x40u8 | ((raw >> 8u32) as u8),
            (raw & 0xff) as u8,
        ) == raw) by (bit_vector);
        out.push(b0);
        out.push(b1);
        proof {
            op = seq![b0, b1];
        }
    } else if d <= DELTA3_HALF || d >= u32::MAX - DELTA3_HALF + 1 {
        let raw = delta_raw(d, DELTA3_HALF);
        let b0 = OP_DELTA3 | ((raw >> 16) as u8);
        let b1 = ((raw >> 8) & 0xff) as u8;
        let b2 = (raw & 0xff) as u8;
        assert(raw < 1048576 ==> (0xc0u8 | ((raw >> 16u32) as u8)) & 0xc0 == 0xc0 && (0xc0u8 | ((
        raw >> 16u32) as u8)) & 0xf0 == 0xc0 && delta3_raw(
            0xc0u8 | ((raw >> 16u32) as u8),
            ((raw >> 8u32) & 0xff) as u8,
            (raw & 0xff) as u8,
        ) == raw) by (bit_vector);
        out.push(b0);
        out.push(b1);
        out.push(b2);
        proof {
            op = seq![b0, b1, b2];
        }
    } else {
        let raw = delta_raw(d, DELTA4_HALF);
        let b0 = OP_DELTA4 | ((raw >> 24) as u8);
        let b1 = ((raw >> 16) & 0xff) as u8;
        let b2 = ((raw >> 8) & 0xff) as u8;
        let b3 = (raw & 0xff) as u8;
        assert(raw < 268435456 ==> (0xd0u8 | ((raw >> 24u32) as u8)) & 0xc0 == 0xc0 && (0xd0u8 | ((
        raw >> 24u32) as u8)) & 0xf0 == 0xd0 && delta4_raw(
            0xd0u8 | ((raw >> 24u32) as u8),
            ((raw >> 16u32) & 0xff) as u8,
            ((raw >> 8u32) & 0xff) as u8,
            (raw & 0xff) as u8,
        ) == raw) by (bit_vector);
        out.push(b0);
        out.push(b1);
        out.push(b2);
        out.push(b3);
        proof {
            op = seq![b0, b1, b2, b3];
        }
    }
    proof {
        assert(out@ =~= old_out + op);
        assert(op =~= delta_bytes(d));
        lemma_push_op(old_out, op);
    }
}

/// Opens a new `VALUES` opcode holding `v`.
fn push_values(out: &mut Vec<u8>, v: u32)
    requires
        decode_from(initial(), old(out)@) is Some,
    ensures
        final(out)@ == old(out)@.push(OP_VALUES) + le4(v),
        decode_from(initial(), final(out)@) == Some(
            emit(decode_from(initial(), old(out)@)->0, v),
        ),
        open_run(final(out)@, old(out)@.len() as int, 1),
{
    let ghost old_out = out@;
    let ghost hp = out@.len() as int;
    out.push(OP_VALUES);
    let ghost mid = out@;
    push_le32(out, v);
    proof {
        assert(out@.take(mid.len() as int)[hp] == mid[hp]);
        assert(out@[hp] == 0xf0u8);
        assert(0xf0u8 & 0xc0 == 0xc0 && 0xf0u8 & 0xf0 == 0xf0 && 0xf0u8 & 0x0f == 0 && (0xf0u8 | 0u8)
            == 0xf0u8) by (bit_vector);
        let op = out@.skip(hp);
        assert(out@.take(hp) =~= old_out);
        assert(out@ =~= old_out + op);
        assert(op[0] == 0xf0u8);
        assert(le32(op, 1) == le32(out@, hp + 1));
        lemma_push_op(old_out, op);
        assert(apply_values(decode_from(initial(), old_out)->0, op, 0) == decode_from(initial(), old_out)->0);
    }
}

proof fn lemma_extend_run(old_out: Seq<u8>, out: Seq<u8>, hp: int, unc: nat, v: u32)
    requires
        1 <= unc < 16,
        open_run(old_out, hp, unc),
        out.len() == old_out.len() + 4,
        out[hp] == (0xf0u8 | (unc as u8)),
        forall|j: int| 0 <= j < old_out.len() && j != hp ==> out[j] == old_out[j],
        le32(out, old_out.len() as int) == v,
    ensures
        decode_from(initial(), old_out) is Some,
        decode_from(initial(), out) == Some(emit(decode_from(initial(), old_out)->0, v)),
        open_run(out, hp, unc + 1),
{
    let d0 = decode_from(initial(), old_out.take(hp))->0;
    let old_op = old_out.skip(hp);
    lemma_values_header((unc - 1) as u8);
    assert(old_out =~= old_out.take(hp) + old_op);
    assert(old_op[0] == old_out[hp]);
    lemma_decode_append(initial(), old_out.take(hp), old_op);
    lemma_decode_one(d0, old_op);
    let new_op = out.skip(hp);
    assert(out.take(hp) =~= old_out.take(hp));
    assert(out =~= out.take(hp) + new_op);
    assert(new_op[0] == (0xf0u8 | (unc as u8)));
    lemma_values_header(unc as u8);
    assert forall|j: int| 1 <= j < 1 + 4 * unc implies old_op[j] == new_op[j] by {
        assert(old_op[j] == old_out[hp + j] && new_op[j] == out[hp + j]);
    }
    lemma_values_prefix(d0, old_op, new_op, unc);
    let q: int = 1 + 4 * (unc as int);
    assert(new_op[q] == out[hp + q] && new_op[q + 1] == out[hp + q + 1] && new_op[q + 2] == out[hp
        + q + 2] && new_op[q + 3] == out[hp + q + 3]);
    assert(le32(new_op, q) == v);
    lemma_decode_append(initial(), out.take(hp), new_op);
    lemma_decode_one(d0, new_op);
}

/// Adds `v` to the open `VALUES` opcode at `hp`, which holds `unc < 16` values.
fn extend_values(out: &mut Vec<u8>, unc: usize, v: u32, Ghost(hp): Ghost<int>)
    requires
        1 <= unc < 16,
        open_run(old(out)@, hp, unc as nat),
    ensures
        final(out)@ == old(out)@.update(hp, (old(out)@[hp] + 1) as u8) + le4(v),
        hp == old(out)@.len() - (1 + 4 * unc),
        decode_from(initial(), old(out)@) is Some,
        decode_from(initial(), final(out)@) == Some(
            emit(decode_from(initial(), old(out)@)->0, v),
        ),
        open_run(final(out)@, hp, (unc + 1) as nat),
{
    let ghost old_out = out@;
    proof {
        lemma_values_header((unc - 1) as u8);
    }
    let pos = out.len() - (1 + unc * 4);
    let h = out[pos];
    out.set(pos, h + 1);
    let ghost mid = out@;
    push_le32(out, v);
    proof {
        assert forall|j: int| 0 <= j < old_out.len() && j != hp implies out@[j] == old_out[j] by {
            assert(out@.take(mid.len() as int)[j] == mid[j]);
        }
        assert(out@.take(mid.len() as int)[hp] == mid[hp]);
        assert(mid =~= old_out.update(hp, (old_out[hp] + 1) as u8));
        lemma_extend_run(old_out, out@, hp, unc as nat, v);
    }
}

/// Encodes `data` and appends the stream to `buf`.
///
/// The appended stream is `encode_spec(data)`, at most five bytes per value,
/// and it decodes to exactly `data`.
#[verifier::rlimit(50)]
pub fn compress(buf: &mut Vec<u8>, data: &[u32])
    ensures
        final(buf)@ == old(buf)@ + encode_spec(data@),
        encode_spec(data@).len() <= 5 * data@.len(),
        final(buf)@.len() >= old(buf)@.len(),
        final(buf)@.take(old(buf)@.len() as int) == old(buf)@,
        decoded(final(buf)@.skip(old(buf)@.len() as int)) == Some(data@),
{
    let mut out: Vec<u8> = Vec::new();
    let mut lastv: u32 = 0;
    let mut run: usize = 0;
    let mut unc: usize = 0;
    let ghost mut hp: int = 0;
    let mut lookup: Vec<u32> = Vec::new();
    while lookup.len() < LOOKUP_LEN
        invariant
            lookup@.len() <= 64,
            forall|j: int| 0 <= j < lookup@.len() ==> lookup@[j] == 0,
        decreases 64 - lookup@.len(),
    {
        lookup.push(0);
    }
    assert(lookup@ =~= initial().lookup);
    assert(initial().out + Seq::new(0, |_t: int| 0u32) =~= data@.take(0));
    assert(data@.take(0) =~= Seq::<u32>::empty());
    assert(enc_fold(data@.take(0)) == (EncState { lastv, run: 0, unc: 0, lookup: lookup@, out: out@ }));
    let mut i: usize = 0;
    while i < data.len()
        invariant
            i <= data@.len(),
            lookup@.len() == 64,
            enc_fold(data@.take(i as int)) == (EncState {
                lastv,
                run: run as nat,
                unc: unc as nat,
                lookup: lookup@,
                out: out@,
            }),
            out@.len() + (if run > 0 { 1int } else { 0int }) <= 5 * i,
            decode_from(initial(), out@) is Some,
            decode_from(initial(), out@)->0.lookup == lookup@,
            decode_from(initial(), out@)->0.lastv == lastv,
            run < 16,
            decode_from(initial(), out@)->0.out + Seq::new(run as nat, |_t: int| lastv) == data@.take(
                i as int,
            ),
            unc <= 16,
            unc > 0 ==> open_run(out@, hp, unc as nat),
        decreases data@.len() - i,
    {
        let ghost d = decode_from(initial(), out@)->0;
        let ghost st = EncState { lastv, run: run as nat, unc: unc as nat, lookup: lookup@, out: out@ };
        let v = data[i];
        assert(data@.take(i + 1) =~= data@.take(i as int).push(v));
        assert(data@.take(i + 1).drop_last() =~= data@.take(i as int));
        assert(enc_fold(data@.take(i + 1)) == enc_step(st, v));
        if v == lastv {
            run += 1;
            assert(d.out + Seq::new(run as nat, |_t: int| lastv) =~= data@.take(i + 1));
            if run == REPEAT_MAX {
                push_repeat(&mut out, run);
                run = 0;
                unc = 0;
                assert(decode_from(initial(), out@)->0.out + Seq::new(0, |_t: int| lastv)
                    =~= data@.take(i + 1));
            }
        } else {
            let mut pending = true;
            if run > 0 {
                push_repeat(&mut out, run);
                run = 0;
                unc = 0;
                lastv = lastv.wrapping_add(1);
                let ghost d1 = decode_from(initial(), out@)->0;
                assert(d1.out =~= data@.take(i as int));
                if v == lastv {
                    run = 1;
                    pending = false;
                    assert(d1.out + Seq::new(1, |_t: int| lastv) =~= data@.take(i + 1));
                } else {
                    assert(d1.out + Seq::new(0, |_t: int| lastv) =~= data@.take(i as int));
                }
            }
            if pending {
                let ghost d2 = decode_from(initial(), out@)->0;
                assert(d2.out =~= data@.take(i as int));
                let index = (hash32(v) % 64) as usize;
                if lookup[index] == v {
                    push_index(&mut out, index);
                    unc = 0;
                } else {
                    lookup.set(index, v);
                    let dv = v.wrapping_sub(lastv);
                    assert(lastv.wrapping_add(dv) == v);
                    if dv <= DELTA4_HALF || dv >= u32::MAX - DELTA4_HALF + 1 {
                        push_delta(&mut out, dv);
                        unc = 0;
                    } else if unc == 0 || unc == VALUES_MAX {
                        proof {
                            hp = out@.len() as int;
                        }
                        push_values(&mut out, v);
                        unc = 1;
                    } else {
                        extend_values(&mut out, unc, v, Ghost(hp));
                        unc += 1;
                    }
                }
                lastv = v;
                assert(decode_from(initial(), out@)->0.out + Seq::new(0, |_t: int| lastv)
                    =~= data@.take(i + 1));
            }
        }
        assert(enc_step(st, v) == (EncState {
            lastv,
            run: run as nat,
            unc: unc as nat,
            lookup: lookup@,
            out: out@,
        }));
        i += 1;
    }
    assert(data@.take(i as int) =~= data@);
    if run > 0 {
        push_repeat(&mut out, run);
    }
    assert(out@ == encode_spec(data@));
    proof {
        let fin = decode_from(initial(), out@)->0;
        assert(data@.take(data@.len() as int) =~= data@);
        assert(fin.out =~= data@);
    }
    let ghost old_buf = buf@;
    let ghost stream = out@;
    buf.append(&mut out);
    proof {
        assert(buf@.take(old_buf.len() as int) =~= old_buf);
        assert(buf@.skip(old_buf.len() as int) =~= stream);
    }
}

/// Lossless compression scheme for 32-bit integers.
#[derive(Copy, Clone, Debug)]
pub struct SimpleU32;

impl SimpleU32 {
    /// Appends the encoding of `data` to `storage`.
    pub fn compress(&self, storage: &mut Vec<u8>, data: &[u32])
        ensures
            final(storage)@ == old(storage)@ + encode_spec(data@),
            encode_spec(data@).len() <= 5 * data@.len(),
            final(storage)@.len() >= old(storage)@.len(),
            final(storage)@.take(old(storage)@.len() as int) == old(storage)@,
            decoded(final(storage)@.skip(old(storage)@.len() as int)) == Some(data@),
    {
        compress(storage, data)
    }

    /// Encodes `data` and decodes the stream again: the codec loses nothing,
    /// so decoding always succeeds and gives `data` back.
    pub fn round_trip(&self, data: &[u32]) -> (r: Vec<u32>)
        ensures
            r@ == data@,
    {
        let mut stream: Vec<u8> = Vec::new();
        self.compress(&mut stream, data);
        assert(stream@.skip(0) =~= stream@);
        let mut out: Vec<u32> = Vec::new();
        while out.len() < data.len()
            invariant
                out@.len() <= data@.len(),
            decreases data@.len() - out@.len(),
        {
            out.push(0);
        }
        let ok = decompress(out.as_mut_slice(), stream.as_slice());
        assert(ok);
        out
    }

    /// Decodes `stream` into `storage`; `true` when it fills `storage` exactly.
    pub fn decompress(storage: &mut [u32], stream: &[u8]) -> (r: bool)
        ensures
            final(storage)@.len() == old(storage)@.len(),
            r == (decoded(stream@) is Some && decoded(stream@)->0.len() == old(storage)@.len()),
            r ==> final(storage)@ == decoded(stream@)->0,
    {
        decompress(storage, stream)
    }
}

/// Appends a SimpleF32 stream for already quantized values: the four
/// little-endian bytes of the unit's bit pattern, then the SimpleU32 stream of
/// the quantized values (each the bits of an `i32`).
pub fn compress_quantized(buf: &mut Vec<u8>, unit_bits: u32, quantized: &[u32])
    ensures
        final(buf)@.len() >= old(buf)@.len() + 4,
        final(buf)@.take(old(buf)@.len() as int) == old(buf)@,
        get_u32(final(buf)@, old(buf)@.len() as int) == unit_bits,
        final(buf)@.skip(old(buf)@.len() + 4int) == encode_spec(quantized@),
        decoded(final(buf)@.skip(old(buf)@.len() + 4int)) == Some(quantized@),
{
    let ghost o = buf@;
    push_u32(buf, unit_bits);
    let ghost m = buf@;
    compress(buf, quantized);
    proof {
        let n = o.len() as int;
        assert(buf@.subrange(n, n + 4) =~= u32_le(unit_bits)) by {
            assert forall|t: int| 0 <= t < 4 implies buf@.subrange(n, n + 4)[t] == u32_le(unit_bits)[t] by {
                assert(buf@.take(m.len() as int)[n + t] == buf@[n + t]);
                assert(m[n + t] == u32_le(unit_bits)[t]);
            }
        }
        lemma_get_u32_at(buf@, n, unit_bits);
        assert(buf@.take(n) =~= o) by {
            assert forall|t: int| 0 <= t < n implies buf@.take(n)[t] == o[t] by {
                assert(buf@.take(m.len() as int)[t] == buf@[t]);
            }
        }
    }
}

/// Decodes a SimpleF32 stream into quantized values, filling `storage`
/// exactly; returns the bit pattern of the unit on success.
pub fn decompress_quantized(storage: &mut [u32], stream: &[u8]) -> (r: Option<u32>)
    ensures
        final(storage)@.len() == old(storage)@.len(),
        stream@.len() < 4 ==> r is None,
        stream@.len() >= 4 ==> {
            let d = decoded(stream@.skip(4));
            &&& (r is Some <==> (d is Some && d->0.len() == old(storage)@.len()))
            &&& r matches Some(u) ==> u == get_u32(stream@, 0) && final(storage)@ == d->0
        },
{
    if stream.len() < 4 {
        return None;
    }
    let unit = read_u32(stream, 0);
    let rest = vstd::slice::slice_subrange(stream, 4, stream.len());
    assert(rest@ =~= stream@.skip(4));
    if decompress(storage, rest) {
        Some(unit)
    } else {
        None
    }
}

} // verus!
