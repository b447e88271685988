//! Paths through nested datasets: `name[index].name...`.
use vstd::prelude::*;
use vstd::string::StringSliceAdditionalSpecFns;
use vstd::utf8::{
    is_char_boundary, is_char_boundary_iff_not_is_continuation_byte,
    is_char_boundary_start_end_of_seq, length_of_first_scalar, pop_first_scalar, valid_utf8,
};
use crate::file_offset::ParseError;
use crate::shape::Shape;
use vstd::slice::slice_subrange;

verus! {

pub const DOT: u8 = 0x2e;
pub const OPEN: u8 = 0x5b;
pub const CLOSE: u8 = 0x5d;

/// One element of a path.
#[derive(Copy, Clone, Debug)]
pub enum PathEl<'a> {
    /// `name[index]`: follow element `index` of the dataset table `name`.
    Dir { name: &'a str, index: u32 },
    /// `name`: the final element.
    Name(&'a str),
}

/// The first index at or after `from` where `b` holds `c`, or `b.len()`.
pub open spec fn find_byte(b: Seq<u8>, c: u8, from: int) -> int
    decreases b.len() - from,
{
    if from >= b.len() {
        b.len() as int
    } else if from >= 0 && b[from] == c {
        from
    } else {
        find_byte(b, c, from + 1)
    }
}

/// The value of a string of decimal digits.
pub open spec fn digits_value(d: Seq<u8>) -> nat
    decreases d.len(),
{
    if d.len() == 0 {
        0
    } else {
        10 * digits_value(d.drop_last()) + (d.last() - 0x30) as nat
    }
}

pub open spec fn all_digits(d: Seq<u8>) -> bool {
    forall|i: int| 0 <= i < d.len() ==> 0x30 <= #[trigger] d[i] <= 0x39
}

/// A `u32` in decimal, as `str::parse::<u32>` reads it: an optional `+`, then
/// one or more digits, with a value that fits.
pub open spec fn parse_u32_spec(b: Seq<u8>) -> Option<u32> {
    let d = if b.len() > 0 && b[0] == 0x2b { b.skip(1) } else { b };
    if d.len() > 0 && all_digits(d) && digits_value(d) <= u32::MAX {
        Some(digits_value(d) as u32)
    } else {
        None
    }
}

/// What one path element parses to: the element, or the error.
pub enum PathElSpec {
    Dir(Seq<u8>, u32),
    Name(Seq<u8>),
}

/// The element before the first `.` of `b`.
pub open spec fn element_of(b: Seq<u8>) -> Seq<u8> {
    b.take(find_byte(b, DOT, 0))
}

/// What is left after the first element and its `.`.
pub open spec fn rest_of(b: Seq<u8>) -> Seq<u8> {
    let dot = find_byte(b, DOT, 0);
    if dot < b.len() {
        b.skip(dot + 1)
    } else {
        Seq::empty()
    }
}

/// Whether the element holds two `[`.
pub open spec fn two_open(e: Seq<u8>) -> bool {
    let j = find_byte(e, OPEN, 0);
    j < e.len() && find_byte(e, OPEN, j + 1) < e.len()
}

/// The parse of the first element of a non-empty path without a second `[`.
pub open spec fn element_spec(e: Seq<u8>) -> Result<PathElSpec, ParseError> {
    let j = find_byte(e, OPEN, 0);
    if j == e.len() {
        Ok(PathElSpec::Name(e))
    } else if e.last() != CLOSE {
        Err(ParseError::InvalidFormat)
    } else {
        match parse_u32_spec(e.subrange(j + 1, e.len() - 1)) {
            Some(x) => Ok(PathElSpec::Dir(e.take(j), x)),
            None => Err(ParseError::ParseIntError),
        }
    }
}

pub open spec fn el_view(p: PathEl) -> PathElSpec {
    match p {
        PathEl::Dir { name, index } => PathElSpec::Dir(name.spec_bytes(), index),
        PathEl::Name(name) => PathElSpec::Name(name.spec_bytes()),
    }
}

pub proof fn lemma_find_byte(b: Seq<u8>, c: u8, from: int)
    requires
        0 <= from <= b.len(),
    ensures
        from <= find_byte(b, c, from) <= b.len(),
        find_byte(b, c, from) < b.len() ==> b[find_byte(b, c, from)] == c,
        forall|k: int| from <= k < find_byte(b, c, from) ==> b[k] != c,
    decreases b.len() - from,
{
    if from < b.len() && b[from] != c {
        lemma_find_byte(b, c, from + 1);
    }
}

/// The position after an ASCII byte of valid UTF-8 is a character boundary.
proof fn lemma_after_ascii(bytes: Seq<u8>, i: int)
    requires
        valid_utf8(bytes),
        0 <= i < bytes.len(),
        bytes[i] < 0x80,
    ensures
        is_char_boundary(bytes, i),
        is_char_boundary(bytes, i + 1),
    decreases bytes.len(),
{
    is_char_boundary_iff_not_is_continuation_byte(bytes, i);
    let l1 = length_of_first_scalar(bytes);
    if i == 0 {
        assert(l1 == 1);
        reveal_with_fuel(is_char_boundary, 2);
        assert(is_char_boundary(pop_first_scalar(bytes), 0));
    } else {
        reveal_with_fuel(valid_utf8, 2);
        if i < l1 {
            assert(is_char_boundary(pop_first_scalar(bytes), i - l1) == false);
        }
        let p = pop_first_scalar(bytes);
        assert(p =~= bytes.subrange(l1, bytes.len() as int));
        assert(p[i - l1] == bytes[i]);
        lemma_after_ascii(p, i - l1);
    }
}

/// Reads a `u32` in decimal from `b`.
pub(crate) fn parse_u32(b: &[u8]) -> (r: Option<u32>)
    ensures
        r == parse_u32_spec(b@),
{
    let mut start: usize = 0;
    if b.len() > 0 && b[0] == 0x2b {
        start = 1;
    }
    let ghost d = if b@.len() > 0 && b@[0] == 0x2b { b@.skip(1) } else { b@ };
    assert(d =~= b@.skip(start as int));
    if start == b.len() {
        return None;
    }
    let mut val: u64 = 0;
    let mut i: usize = start;
    while i < b.len()
        invariant
            start <= i <= b@.len(),
            d == b@.skip(start as int),
            d == (if b@.len() > 0 && b@[0] == 0x2b { b@.skip(1) } else { b@ }),
            val <= u32::MAX,
            all_digits(d.take(i - start)),
            val == digits_value(d.take(i - start)),
        decreases b@.len() - i,
    {
        let c = b[i];
        if c < 0x30 || c > 0x39 {
            assert(d[i - start] == c);
            return None;
        }
        val = val * 10 + (c - 0x30) as u64;
        i += 1;
        proof {
            let t = d.take(i - start);
            assert(t.drop_last() =~= d.take(i - 1 - start));
            assert(t.last() == c);
            assert forall|k: int| 0 <= k < t.len() implies 0x30 <= #[trigger] t[k] <= 0x39 by {
                if k < t.len() - 1 {
                    assert(t[k] == d.take(i - 1 - start)[k]);
                }
            }
        }
        if val > 0xffff_ffff {
            proof {
                lemma_digits_grow(d, (i - start) as int);
            }
            return None;
        }
    }
    assert(d.take(i - start) =~= d);
    Some(val as u32)
}

proof fn lemma_digits_grow(d: Seq<u8>, k: int)
    requires
        0 <= k <= d.len(),
        all_digits(d.take(k)),
    ensures
        all_digits(d) ==> digits_value(d) >= digits_value(d.take(k)),
    decreases d.len() - k,
{
    if k < d.len() && all_digits(d) {
        assert(all_digits(d.take(k + 1)));
        let t = d.take(k + 1);
        assert(t.drop_last() =~= d.take(k));
        lemma_digits_grow(d, k + 1);
    } else if k == d.len() {
        assert(d.take(k) =~= d);
    }
}

/// Splits `s` at byte `i`, which must be a character boundary.
fn split(s: &str, i: usize) -> (r: (&str, &str))
    requires
        i <= s.spec_bytes().len(),
        is_char_boundary(s.spec_bytes(), i as int),
    ensures
        r.0.spec_bytes() == s.spec_bytes().take(i as int),
        r.1.spec_bytes() == s.spec_bytes().skip(i as int),
{
    let r = s.split_at(i);
    assert(r.0.spec_bytes() =~= s.spec_bytes().take(i as int));
    assert(r.1.spec_bytes() =~= s.spec_bytes().skip(i as int));
    r
}

impl<'a> PathEl<'a> {
    /// The name of the element.
    pub fn name(&self) -> (r: &'a str)
        ensures
            r == match *self {
                PathEl::Dir { name, .. } => name,
                PathEl::Name(name) => name,
            },
    {
        match *self {
            PathEl::Dir { name, .. } => name,
            PathEl::Name(name) => name,
        }
    }

    /// Parses the first element of the path in `state` and leaves the rest
    /// (after the `.`) in `state`.
    ///
    /// An element is `name` or `name[index]`: it holds at most one `[`, and
    /// with a `[` it ends in `]` around a decimal `u32`. An empty path and a
    /// second `[` fail before `state` moves on; the other failures come after.
    pub fn parse(state: &mut &'a str) -> (r: Result<PathEl<'a>, ParseError>)
        ensures
            ({
                let b = (*old(state)).spec_bytes();
                let e = element_of(b);
                if b.len() == 0 || two_open(e) {
                    &&& r == Err::<PathEl<'a>, ParseError>(ParseError::InvalidFormat)
                    &&& *final(state) == *old(state)
                } else {
                    &&& (*final(state)).spec_bytes() == rest_of(b)
                    &&& match element_spec(e) {
                        Ok(p) => r is Ok && el_view(r->Ok_0) == p,
                        Err(err) => r == Err::<PathEl<'a>, ParseError>(err),
                    }
                }
            }),
    {
        let string: &'a str = *state;
        let bytes = string.as_bytes();
        let ghost b = bytes@;
        if bytes.len() == 0 {
            return Err(ParseError::InvalidFormat);
        }
        proof {
            vstd::utf8::encode_utf8_valid_utf8(string@);
            lemma_find_byte(b, DOT, 0);
        }
        let mut i: usize = 0;
        let mut j: Option<usize> = None;
        while i < bytes.len() && bytes[i] != DOT
            invariant
                b == bytes@,
                *state == *old(state),
                string == *old(state),
                b == string.spec_bytes(),
                i <= b.len(),
                forall|k: int| 0 <= k < i ==> b[k] != DOT,
                match j {
                    None => forall|k: int| 0 <= k < i ==> b[k] != OPEN,
                    Some(jj) => jj < i && b[jj as int] == OPEN && (forall|k: int|
                        0 <= k < i && k != jj ==> b[k] != OPEN),
                },
            decreases b.len() - i,
        {
            if bytes[i] == OPEN {
                if j.is_some() {
                    proof {
                        let jj = j->0;
                        lemma_find_byte(b, DOT, 0);
                        assert(find_byte(b, DOT, 0) > i) by {
                            if find_byte(b, DOT, 0) <= i {
                                assert(b[find_byte(b, DOT, 0)] == DOT);
                            }
                        }
                        let e = element_of(b);
                        assert(e.len() == find_byte(b, DOT, 0));
                        assert(forall|k: int| 0 <= k < e.len() ==> e[k] == b[k]);
                        lemma_find_byte(e, OPEN, 0);
                        assert(e[jj as int] == OPEN && e[i as int] == OPEN);
                        assert(find_byte(e, OPEN, 0) == jj) by {
                            if find_byte(e, OPEN, 0) < jj {
                                assert(e[find_byte(e, OPEN, 0)] == b[find_byte(e, OPEN, 0)]);
                            }
                        }
                        lemma_find_byte(e, OPEN, jj + 1);
                        assert(jj < i);
                        assert(e[i as int] == OPEN);
                        assert(find_byte(e, OPEN, jj + 1) <= i);
                        assert(two_open(e));
                    }
                    return Err(ParseError::InvalidFormat);
                }
                j = Some(i);
            }
            i += 1;
        }
        let ghost dot = find_byte(b, DOT, 0);
        assert(dot == i) by {
            lemma_find_byte(b, DOT, 0);
            if dot < i {
                assert(b[dot] == DOT);
            }
        }
        let element: &'a str;
        if i < bytes.len() {
            proof {
                lemma_after_ascii(b, i as int);
            }
            let (head, tail) = split(string, i);
            let (_dot, rest) = split(string, i + 1);
            element = head;
            *state = rest;
        } else {
            proof {
                is_char_boundary_start_end_of_seq(b);
            }
            let (head, tail) = split(string, i);
            element = head;
            let (empty, _all) = split(string, 0);
            assert(empty.spec_bytes() =~= Seq::<u8>::empty());
            *state = empty;
        }
        let ghost e = element.spec_bytes();
        assert(e == element_of(b));
        proof {
            lemma_find_byte(e, OPEN, 0);
            assert(e.len() == i);
            assert(forall|k: int| 0 <= k < e.len() ==> e[k] == b[k]);
        }
        match j {
            Some(j) => {
                proof {
                    assert(find_byte(e, OPEN, 0) == j) by {
                        if find_byte(e, OPEN, 0) < j {
                            assert(e[find_byte(e, OPEN, 0)] == b[find_byte(e, OPEN, 0)]);
                        }
                    }
                    lemma_find_byte(e, OPEN, j + 1);
                    if find_byte(e, OPEN, j + 1) < e.len() {
                        assert(e[find_byte(e, OPEN, j + 1)] == b[find_byte(e, OPEN, j + 1)]);
                    }
                }
                let eb = element.as_bytes();
                let n = eb.len();
                if eb[n - 1] != CLOSE {
                    return Err(ParseError::InvalidFormat);
                }
                proof {
                    vstd::utf8::encode_utf8_valid_utf8(element@);
                    lemma_after_ascii(e, j as int);
                    lemma_after_ascii(e, n - 1);
                }
                let (name, after) = split(element, j);
                let index = match parse_u32(slice_subrange(eb, j + 1, n - 1)) {
                    Some(x) => x,
                    None => {
                        return Err(ParseError::ParseIntError);
                    },
                };
                Ok(PathEl::Dir { name, index })
            },
            None => {
                proof {
                    assert(find_byte(e, OPEN, 0) == e.len()) by {
                        if find_byte(e, OPEN, 0) < e.len() {
                            assert(e[find_byte(e, OPEN, 0)] == b[find_byte(e, OPEN, 0)]);
                        }
                    }
                }
                Ok(PathEl::Name(element))
            },
        }
    }
}

/// The first index at or after `from` where `b` holds `c`, or `b.len()`.
pub(crate) fn find(b: &[u8], c: u8, from: usize) -> (r: usize)
    requires
        from <= b@.len(),
    ensures
        r == find_byte(b@, c, from as int),
{
    let mut i = from;
    while i < b.len() && b[i] != c
        invariant
            from <= i <= b@.len(),
            find_byte(b@, c, from as int) == find_byte(b@, c, i as int),
        decreases b@.len() - i,
    {
        i += 1;
    }
    i
}

/// The value of one part of a shape: a decimal `u32` below `limit`.
pub open spec fn part_spec(p: Seq<u8>, limit: nat) -> Result<u32, ParseError> {
    match parse_u32_spec(p) {
        None => Err(ParseError::ParseIntError),
        Some(x) => if x as nat >= limit {
            Err(ParseError::Overflow)
        } else {
            Ok(x)
        },
    }
}

/// What `Shape::parse` reads from `b`: `scalar`, or `x`, `xXy` or `xXyXz`
/// with `X` the letter `x`.
pub open spec fn shape_spec(b: Seq<u8>) -> Result<Shape, ParseError> {
    if b == seq![0x73u8, 0x63, 0x61, 0x6c, 0x61, 0x72] {
        Ok(Shape::Scalar)
    } else {
        let f0 = find_byte(b, LETTER_X, 0);
        match part_spec(b.take(f0), 0x1_0000_0000) {
            Err(e) => Err(e),
            Ok(x) => if f0 == b.len() {
                Ok(Shape::D1(x))
            } else {
                let f1 = find_byte(b, LETTER_X, f0 + 1);
                match part_spec(b.subrange(f0 + 1, f1), 0x100_0000) {
                    Err(e) => Err(e),
                    Ok(y) => if f1 == b.len() {
                        Ok(Shape::D2(x, y))
                    } else {
                        let f2 = find_byte(b, LETTER_X, f1 + 1);
                        match part_spec(b.subrange(f1 + 1, f2), 0x100) {
                            Err(e) => Err(e),
                            Ok(z) => if f2 == b.len() {
                                Ok(Shape::D3(x, y, z as u8))
                            } else {
                                Err(ParseError::InvalidFormat)
                            },
                        }
                    },
                }
            },
        }
    }
}

pub const LETTER_X: u8 = 0x78;

fn parse_part(b: &[u8], start: usize, end: usize, limit: u64) -> (r: Result<u32, ParseError>)
    requires
        start <= end <= b@.len(),
    ensures
        r == part_spec(b@.subrange(start as int, end as int), limit as nat),
{
    match parse_u32(slice_subrange(b, start, end)) {
        None => Err(ParseError::ParseIntError),
        Some(x) => if x as u64 >= limit {
            Err(ParseError::Overflow)
        } else {
            Ok(x)
        },
    }
}

impl Shape {
    /// Reads a shape written as `scalar`, `X`, `XxY` or `XxYxZ` in decimal.
    ///
    /// A part that is not a decimal `u32` fails with `ParseIntError`, a second
    /// axis of 2^24 or more or a third of 256 or more with `Overflow`, and a
    /// fourth part with `InvalidFormat`.
    pub fn parse(s: &str) -> (r: Result<Shape, ParseError>)
        ensures
            r == shape_spec(s.spec_bytes()),
    {
        let b = s.as_bytes();
        let n = b.len();
        if n == 6 && b[0] == 0x73 && b[1] == 0x63 && b[2] == 0x61 && b[3] == 0x6c && b[4] == 0x61
            && b[5] == 0x72 {
            assert(b@ =~= seq![0x73u8, 0x63, 0x61, 0x6c, 0x61, 0x72]);
            return Ok(Shape::Scalar);
        }
        assert(b@ != seq![0x73u8, 0x63, 0x61, 0x6c, 0x61, 0x72]) by {
            if b@ == seq![0x73u8, 0x63, 0x61, 0x6c, 0x61, 0x72] {
                assert(b@[0] == 0x73 && b@[5] == 0x72);
            }
        }
        let f0 = find(b, LETTER_X, 0);
        proof {
            lemma_find_byte(b@, LETTER_X, 0);
            assert(b@.take(f0 as int) =~= b@.subrange(0, f0 as int));
        }
        let x = match parse_part(b, 0, f0, 0x1_0000_0000) {
            Ok(x) => x,
            Err(e) => {
                return Err(e);
            },
        };
        if f0 == n {
            return Ok(Shape::D1(x));
        }
        let f1 = find(b, LETTER_X, f0 + 1);
        proof {
            lemma_find_byte(b@, LETTER_X, f0 + 1);
        }
        let y = match parse_part(b, f0 + 1, f1, 0x100_0000) {
            Ok(y) => y,
            Err(e) => {
                return Err(e);
            },
        };
        if f1 == n {
            return Ok(Shape::D2(x, y));
        }
        let f2 = find(b, LETTER_X, f1 + 1);
        proof {
            lemma_find_byte(b@, LETTER_X, f1 + 1);
        }
        let z = match parse_part(b, f1 + 1, f2, 0x100) {
            Ok(z) => z,
            Err(e) => {
                return Err(e);
            },
        };
        if f2 == n {
            return Ok(Shape::D3(x, y, z as u8));
        }
        Err(ParseError::InvalidFormat)
    }
}

/// The value of a digit in `radix` (10 or 16), if it is one.
pub open spec fn digit_of(c: u8, radix: nat) -> Option<nat> {
    if 0x30 <= c <= 0x39 {
        Some((c - 0x30) as nat)
    } else if radix == 16 && 0x61 <= c <= 0x66 {
        Some((c - 0x61 + 10) as nat)
    } else if radix == 16 && 0x41 <= c <= 0x46 {
        Some((c - 0x41 + 10) as nat)
    } else {
        None
    }
}

pub open spec fn radix_digits(d: Seq<u8>, radix: nat) -> bool {
    forall|i: int| 0 <= i < d.len() ==> #[trigger] digit_of(d[i], radix) is Some
}

pub open spec fn radix_value(d: Seq<u8>, radix: nat) -> nat
    decreases d.len(),
{
    if d.len() == 0 {
        0
    } else {
        radix * radix_value(d.drop_last(), radix) + digit_of(d.last(), radix)->0
    }
}

/// A `u64` as `u64::from_str_radix` reads it: an optional `+`, then one or
/// more digits, with a value that fits.
pub open spec fn radix_u64_spec(b: Seq<u8>, radix: nat) -> Option<u64> {
    let d = if b.len() > 0 && b[0] == 0x2b { b.skip(1) } else { b };
    if d.len() > 0 && radix_digits(d, radix) && radix_value(d, radix) <= u64::MAX {
        Some(radix_value(d, radix) as u64)
    } else {
        None
    }
}

/// A `u64` in hexadecimal after `0x`, else in decimal.
pub open spec fn u64_text_spec(b: Seq<u8>) -> Option<u64> {
    if b.len() >= 2 && b[0] == 0x30 && b[1] == LETTER_X {
        radix_u64_spec(b.skip(2), 16)
    } else {
        radix_u64_spec(b, 10)
    }
}

proof fn lemma_radix_grow(d: Seq<u8>, k: int, radix: nat)
    requires
        0 <= k <= d.len(),
        radix >= 1,
        radix_digits(d.take(k), radix),
    ensures
        radix_digits(d, radix) ==> radix_value(d, radix) >= radix_value(d.take(k), radix),
    decreases d.len() - k,
{
    if k < d.len() && radix_digits(d, radix) {
        let t = d.take(k + 1);
        assert(t.drop_last() =~= d.take(k));
        assert(radix_digits(t, radix)) by {
            assert forall|i: int| 0 <= i < t.len() implies #[trigger] digit_of(t[i], radix) is Some by {
                assert(t[i] == d[i]);
            }
        }
        assert(radix * radix_value(d.take(k), radix) >= radix_value(d.take(k), radix)) by (nonlinear_arith)
            requires radix >= 1;
        lemma_radix_grow(d, k + 1, radix);
    } else if k == d.len() {
        assert(d.take(k) =~= d);
    }
}

fn digit_value(c: u8, radix: u64) -> (r: Option<u64>)
    requires
        radix == 10 || radix == 16,
    ensures
        match digit_of(c, radix as nat) {
            Some(v) => r == Some(v as u64),
            None => r is None,
        },
{
    if 0x30 <= c && c <= 0x39 {
        Some((c - 0x30) as u64)
    } else if radix == 16 && 0x61 <= c && c <= 0x66 {
        Some((c - 0x61 + 10) as u64)
    } else if radix == 16 && 0x41 <= c && c <= 0x46 {
        Some((c - 0x41 + 10) as u64)
    } else {
        None
    }
}

/// Reads a `u64` in `radix` from `b`.
fn parse_radix_u64(b: &[u8], radix: u64) -> (r: Option<u64>)
    requires
        radix == 10 || radix == 16,
    ensures
        r == radix_u64_spec(b@, radix as nat),
{
    let mut start: usize = 0;
    if b.len() > 0 && b[0] == 0x2b {
        start = 1;
    }
    let ghost d = if b@.len() > 0 && b@[0] == 0x2b { b@.skip(1) } else { b@ };
    assert(d =~= b@.skip(start as int));
    if start == b.len() {
        return None;
    }
    let mut val: u64 = 0;
    let mut i: usize = start;
    while i < b.len()
        invariant
            start <= i <= b@.len(),
            radix == 10 || radix == 16,
            d == b@.skip(start as int),
            d == (if b@.len() > 0 && b@[0] == 0x2b { b@.skip(1) } else { b@ }),
            radix_digits(d.take(i - start), radix as nat),
            val == radix_value(d.take(i - start), radix as nat),
        decreases b@.len() - i,
    {
        let c = b[i];
        let v = match digit_value(c, radix) {
            Some(v) => v,
            None => {
                assert(d[i - start] == c);
                return None;
            },
        };
        i += 1;
        let ghost t = d.take(i - start);
        proof {
            assert(t.drop_last() =~= d.take(i - 1 - start));
            assert(t.last() == c);
            assert forall|k: int| 0 <= k < t.len() implies #[trigger] digit_of(t[k], radix as nat) is Some by {
                if k < t.len() - 1 {
                    assert(t[k] == d.take(i - 1 - start)[k]);
                }
            }
        }
        let lim = (u64::MAX - v) / radix;
        if val > lim {
            proof {
                assert(radix * val + v > u64::MAX) by (nonlinear_arith)
                    requires
                        val > lim,
                        lim == (u64::MAX - v) as int / radix as int,
                        radix >= 10,
                        v < radix,
                ;
                lemma_radix_grow(d, (i - start) as int, radix as nat);
            }
            return None;
        }
        proof {
            assert(radix * val + v <= u64::MAX) by (nonlinear_arith)
                requires
                    val <= lim,
                    lim == (u64::MAX - v) as int / radix as int,
                    radix >= 10,
                    v <= u64::MAX,
            ;
        }
        val = val * radix + v;
    }
    assert(d.take(i - start) =~= d);
    Some(val)
}

impl crate::format::FileOffset {
    /// Reads a file offset written as `offset:size`, each number in decimal or
    /// in hexadecimal after `0x`.
    ///
    /// A number that does not read fails with `ParseIntError`; a missing size
    /// or a third part fails with `InvalidFormat`.
    pub fn parse(s: &str) -> (r: Result<crate::format::FileOffset, ParseError>)
        ensures
            ({
                let b = s.spec_bytes();
                let f0 = find_byte(b, COLON, 0);
                let f1 = find_byte(b, COLON, f0 + 1);
                match u64_text_spec(b.take(f0)) {
                    None => r == Err::<crate::format::FileOffset, ParseError>(ParseError::ParseIntError),
                    Some(offset) => if f0 == b.len() {
                        r == Err::<crate::format::FileOffset, ParseError>(ParseError::InvalidFormat)
                    } else {
                        match u64_text_spec(b.subrange(f0 + 1, f1)) {
                            None => r == Err::<crate::format::FileOffset, ParseError>(ParseError::ParseIntError),
                            Some(size) => if f1 < b.len() {
                                r == Err::<crate::format::FileOffset, ParseError>(ParseError::InvalidFormat)
                            } else {
                                r == Ok::<crate::format::FileOffset, ParseError>(
                                    crate::format::FileOffset { offset, size },
                                )
                            },
                        }
                    },
                }
            }),
    {
        let b = s.as_bytes();
        let n = b.len();
        let f0 = find(b, COLON, 0);
        proof {
            lemma_find_byte(b@, COLON, 0);
            assert(b@.take(f0 as int) =~= b@.subrange(0, f0 as int));
        }
        let offset = match parse_u64_text(b, 0, f0) {
            Some(x) => x,
            None => {
                return Err(ParseError::ParseIntError);
            },
        };
        if f0 == n {
            return Err(ParseError::InvalidFormat);
        }
        let f1 = find(b, COLON, f0 + 1);
        proof {
            lemma_find_byte(b@, COLON, f0 + 1);
        }
        let size = match parse_u64_text(b, f0 + 1, f1) {
            Some(x) => x,
            None => {
                return Err(ParseError::ParseIntError);
            },
        };
        if f1 < n {
            return Err(ParseError::InvalidFormat);
        }
        Ok(crate::format::FileOffset { offset, size })
    }
}

pub const COLON: u8 = 0x3a;

/// Reads `b[start..end]` as a `u64`: hexadecimal after `0x`, else decimal.
fn parse_u64_text(b: &[u8], start: usize, end: usize) -> (r: Option<u64>)
    requires
        start <= end <= b@.len(),
    ensures
        r == u64_text_spec(b@.subrange(start as int, end as int)),
{
    let p = slice_subrange(b, start, end);
    if p.len() >= 2 && p[0] == 0x30 && p[1] == LETTER_X {
        let q = slice_subrange(p, 2, p.len());
        assert(q@ =~= p@.skip(2));
        parse_radix_u64(q, 16)
    } else {
        parse_radix_u64(p, 10)
    }
}

impl core::str::FromStr for Shape {
    type Err = ParseError;

    fn from_str(s: &str) -> Result<Shape, ParseError> {
        Shape::parse(s)
    }
}

impl core::str::FromStr for crate::format::FileOffset {
    type Err = ParseError;

    fn from_str(s: &str) -> Result<crate::format::FileOffset, ParseError> {
        crate::format::FileOffset::parse(s)
    }
}

} // verus!
