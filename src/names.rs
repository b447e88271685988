//! The name dictionary: a table of name hashes, sorted for binary search,
//! over a pool of UTF-8 strings.
use vstd::prelude::*;
use vstd::string::StringSliceAdditionalSpecFns;
use vstd::utf8::valid_utf8;
use vstd::slice::{slice_subrange, slice_to_vec};
use crate::file_offset::ParseError;
use crate::format::{LookupEntry, LOOKUP_ENTRY_SIZE};

verus! {

broadcast use vstd::multiset::group_multiset_axioms;

/// The bytes of the pool that an entry names, if they lie within the pool.
pub open spec fn entry_bytes(strings: Seq<u8>, e: LookupEntry) -> Option<Seq<u8>> {
    if e.offset as int + e.len as int <= strings.len() {
        Some(strings.subrange(e.offset as int, e.offset as int + e.len as int))
    } else {
        None
    }
}

/// Whether an entry names valid UTF-8 bytes within the pool.
pub open spec fn entry_has_name(strings: Seq<u8>, e: LookupEntry) -> bool {
    entry_bytes(strings, e) is Some && valid_utf8(entry_bytes(strings, e)->0)
}

/// Entries strictly ascending by hash.
pub open spec fn strictly_sorted(entries: Seq<LookupEntry>) -> bool {
    forall|i: int, j: int| 0 <= i < j < entries.len() ==> entries[i].hash < entries[j].hash
}

/// Entries ascending by hash, equal hashes allowed.
pub open spec fn sorted_by_hash(entries: Seq<LookupEntry>) -> bool {
    forall|i: int, j: int| 0 <= i < j < entries.len() ==> entries[i].hash <= entries[j].hash
}

/// No two entries share a hash and no entry has hash 0.
pub open spec fn hashes_valid(entries: Seq<LookupEntry>) -> bool {
    &&& forall|i: int| 0 <= i < entries.len() ==> entries[i].hash != 0
    &&& forall|i: int, j: int|
        0 <= i < entries.len() && 0 <= j < entries.len() && i != j ==> entries[i].hash
            != entries[j].hash
}

/// `x` rounded up to the next multiple of 8.
pub open spec fn round_up8(x: nat) -> nat {
    if x % 8 == 0 {
        x
    } else {
        (x + 8 - x % 8) as nat
    }
}

/// The first index at or after `from` whose entry names the bytes `name`, or
/// the number of entries.
pub open spec fn name_index(entries: Seq<LookupEntry>, strings: Seq<u8>, name: Seq<u8>, from: int) -> int
    decreases entries.len() - from,
{
    if from >= entries.len() {
        entries.len() as int
    } else if from >= 0 && entry_bytes(strings, entries[from]) == Some(name) {
        from
    } else {
        name_index(entries, strings, name, from + 1)
    }
}

pub proof fn lemma_name_index(entries: Seq<LookupEntry>, strings: Seq<u8>, name: Seq<u8>, from: int)
    requires
        0 <= from <= entries.len(),
    ensures
        from <= name_index(entries, strings, name, from) <= entries.len(),
        name_index(entries, strings, name, from) < entries.len() ==> entry_bytes(
            strings,
            entries[name_index(entries, strings, name, from)],
        ) == Some(name),
    decreases entries.len() - from,
{
    if from < entries.len() && entry_bytes(strings, entries[from]) != Some(name) {
        lemma_name_index(entries, strings, name, from + 1);
    }
}

/// Relies on std::str::from_utf8: it succeeds exactly on valid UTF-8 and then
/// borrows the same bytes as a string.
#[verifier::external_body]
fn utf8_str(b: &[u8]) -> (r: Option<&str>)
    ensures
        r is Some <==> valid_utf8(b@),
        r matches Some(s) ==> s.spec_bytes() == b@,
{
    std::str::from_utf8(b).ok()
}

/// The name string of an entry, if its bytes lie in the pool and are UTF-8.
fn name<'a>(strings: &'a [u8], desc: &LookupEntry) -> (r: Option<&'a str>)
    ensures
        r is Some <==> entry_has_name(strings@, *desc),
        r matches Some(s) ==> entry_bytes(strings@, *desc) == Some(s.spec_bytes()),
{
    let start = desc.offset as usize;
    let end = start + desc.len as usize;
    if end > strings.len() {
        return None;
    }
    utf8_str(slice_subrange(strings, start, end))
}

/// Compares two byte strings.
pub(crate) fn bytes_eq(a: &[u8], b: &[u8]) -> (r: bool)
    ensures
        r == (a@ == b@),
{
    if a.len() != b.len() {
        return false;
    }
    let mut i: usize = 0;
    while i < a.len()
        invariant
            i <= a@.len(),
            a@.len() == b@.len(),
            forall|j: int| 0 <= j < i ==> a@[j] == b@[j],
        decreases a@.len() - i,
    {
        if a[i] != b[i] {
            return false;
        }
        i += 1;
    }
    assert(a@ =~= b@);
    true
}

/// Binary search-based names lookup table, borrowed.
#[derive(Copy, Clone)]
pub struct NamesRef<'a> {
    /// Name entries, ascending by hash.
    pub entries: &'a [LookupEntry],
    /// UTF-8 string pool the entries point into.
    pub strings: &'a [u8],
}

/// A name that was found, or the hash that was not.
#[derive(Copy, Clone)]
pub struct NameOrHash<'a>(pub Result<&'a str, u32>);

impl<'a> NamesRef<'a> {
    /// An empty table.
    pub fn new() -> (r: NamesRef<'a>)
        ensures
            r.entries@.len() == 0,
            r.strings@.len() == 0,
    {
        NamesRef { entries: &[], strings: &[] }
    }

    /// Copies the table into an owned one.
    pub fn to_owned(&self) -> (r: Names)
        ensures
            r.entries@ == self.entries@,
            r.strings@ == self.strings@,
    {
        Names { entries: slice_to_vec(self.entries), strings: slice_to_vec(self.strings) }
    }

    /// Looks up the name of a hash by binary search.
    ///
    /// Returns `Err(hash)` for hash 0, for a hash that is not in the table, and
    /// when the entry's string lies outside the pool or is not UTF-8. On a
    /// table sorted by hash every present, valid name is found.
    pub fn lookup(&self, hash: u32) -> (r: Result<&'a str, u32>)
        ensures
            r matches Err(h) ==> h == hash,
            r is Ok ==> hash != 0,
            r matches Ok(s) ==> exists|i: int|
                0 <= i < self.entries@.len() && self.entries@[i].hash == hash && entry_bytes(
                    self.strings@,
                    #[trigger] self.entries@[i],
                ) == Some(s.spec_bytes()),
            strictly_sorted(self.entries@) && hash != 0 && (exists|i: int|
                0 <= i < self.entries@.len() && self.entries@[i].hash == hash && entry_has_name(
                    self.strings@,
                    #[trigger] self.entries@[i],
                )) ==> r is Ok,
    {
        if hash == 0 {
            return Err(hash);
        }
        let entries = self.entries;
        let mut lo: usize = 0;
        let mut hi: usize = entries.len();
        while lo < hi
            invariant
                lo <= hi <= entries@.len(),
                hash != 0,
                entries@ == self.entries@,
                strictly_sorted(entries@) ==> forall|i: int|
                    0 <= i < entries@.len() && (i < lo || i >= hi) ==> #[trigger] entries@[i].hash
                        != hash,
            decreases hi - lo,
        {
            let mid = lo + (hi - lo) / 2;
            let h = entries[mid].hash;
            if h == hash {
                assert(self.entries@[mid as int].hash == hash);
                let found = name(self.strings, &entries[mid]);
                if let Some(s) = found {
                    let r: Result<&'a str, u32> = Ok(s);
                    assert(entry_bytes(self.strings@, self.entries@[mid as int]) == Some(
                        s.spec_bytes(),
                    ));
                    assert(exists|i: int|
                        0 <= i < self.entries@.len() && self.entries@[i].hash == hash
                            && entry_bytes(self.strings@, #[trigger] self.entries@[i]) == Some(
                            s.spec_bytes(),
                        ));
                    return r;
                }
                return Err(hash);
            } else if h < hash {
                lo = mid + 1;
            } else {
                hi = mid;
            }
        }
        Err(hash)
    }

    /// Finds the hash of the first entry whose string equals `name`.
    pub fn find(&self, name: &str) -> (r: Option<u32>)
        ensures
            ({
                let k = name_index(self.entries@, self.strings@, name.spec_bytes(), 0);
                r == if k < self.entries@.len() {
                    Some(self.entries@[k].hash)
                } else {
                    None::<u32>
                }
            }),
    {
        let target = name.as_bytes();
        let mut i: usize = 0;
        while i < self.entries.len()
            invariant
                i <= self.entries@.len(),
                target@ == name.spec_bytes(),
                name_index(self.entries@, self.strings@, name.spec_bytes(), 0) == name_index(
                    self.entries@,
                    self.strings@,
                    name.spec_bytes(),
                    i as int,
                ),
            decreases self.entries@.len() - i,
        {
            let e = &self.entries[i];
            let start = e.offset as usize;
            let end = start + e.len as usize;
            if end <= self.strings.len() {
                if bytes_eq(slice_subrange(self.strings, start, end), target) {
                    return Some(e.hash);
                }
            }
            i += 1;
        }
        None
    }

    /// The entries in table order, each hash with its name where it has one.
    pub fn iter(&self) -> (r: Vec<(u32, Option<&'a str>)>)
        ensures
            r@.len() == self.entries@.len(),
            forall|i: int|
                0 <= i < r@.len() ==> {
                    let (h, n) = #[trigger] r@[i];
                    &&& h == self.entries@[i].hash
                    &&& (n is Some <==> entry_has_name(self.strings@, self.entries@[i]))
                    &&& n matches Some(s) ==> entry_bytes(self.strings@, self.entries@[i]) == Some(
                        s.spec_bytes(),
                    )
                },
    {
        let mut r: Vec<(u32, Option<&'a str>)> = Vec::new();
        let mut i: usize = 0;
        while i < self.entries.len()
            invariant
                i <= self.entries@.len(),
                r@.len() == i,
                forall|j: int|
                    0 <= j < i ==> {
                        let (h, n) = #[trigger] r@[j];
                        &&& h == self.entries@[j].hash
                        &&& (n is Some <==> entry_has_name(self.strings@, self.entries@[j]))
                        &&& n matches Some(s) ==> entry_bytes(self.strings@, self.entries@[j])
                            == Some(s.spec_bytes())
                    },
            decreases self.entries@.len() - i,
        {
            let e = &self.entries[i];
            r.push((e.hash, name(self.strings, e)));
            i += 1;
        }
        r
    }

    /// The names in table order, where the entry has one.
    pub fn names(&self) -> (r: Vec<Option<&'a str>>)
        ensures
            r@.len() == self.entries@.len(),
            forall|i: int|
                0 <= i < r@.len() ==> {
                    &&& (#[trigger] r@[i] is Some <==> entry_has_name(
                        self.strings@,
                        self.entries@[i],
                    ))
                    &&& r@[i] matches Some(s) ==> entry_bytes(self.strings@, self.entries@[i])
                        == Some(s.spec_bytes())
                },
    {
        let mut r: Vec<Option<&'a str>> = Vec::new();
        let mut i: usize = 0;
        while i < self.entries.len()
            invariant
                i <= self.entries@.len(),
                r@.len() == i,
                forall|j: int|
                    0 <= j < i ==> {
                        &&& (#[trigger] r@[j] is Some <==> entry_has_name(
                            self.strings@,
                            self.entries@[j],
                        ))
                        &&& r@[j] matches Some(s) ==> entry_bytes(self.strings@, self.entries@[j])
                            == Some(s.spec_bytes())
                    },
            decreases self.entries@.len() - i,
        {
            r.push(name(self.strings, &self.entries[i]));
            i += 1;
        }
        r
    }

    /// The size in bytes of the entries and the string pool on disk.
    pub fn file_size(&self) -> (r: usize)
        requires
            self.entries@.len() * 8 + self.strings@.len() <= usize::MAX,
        ensures
            r == self.entries@.len() * 8 + self.strings@.len(),
    {
        self.entries.len() * LOOKUP_ENTRY_SIZE + self.strings.len()
    }
}

/// The name dictionary under construction, owned.
#[derive(Clone, Default)]
pub struct Names {
    pub entries: Vec<LookupEntry>,
    pub strings: Vec<u8>,
}

proof fn lemma_swap_multiset<A>(s: Seq<A>, i: int, j: int)
    requires
        0 <= i < s.len(),
        0 <= j < s.len(),
    ensures
        s.update(i, s[j]).update(j, s[i]).to_multiset() == s.to_multiset(),
{
    broadcast use vstd::seq_lib::to_multiset_update;
    broadcast use vstd::seq_lib::to_multiset_contains;
    broadcast use vstd::multiset::group_multiset_properties;

    assert(s.contains(s[i]) && s.contains(s[j]));
    assert(s.to_multiset().count(s[i]) > 0);
    assert(s.to_multiset().count(s[j]) > 0);

    let t = s.update(i, s[j]);
    assert(t.to_multiset() == s.to_multiset().insert(s[j]).remove(s[i]));
    assert(t[j] == s[j] || i == j);
    if i == j {
        assert(t =~= s);
        assert(t.update(j, s[i]) =~= s);
    } else {
        assert(t.update(j, s[i]).to_multiset() == t.to_multiset().insert(s[i]).remove(t[j]));
        assert(t.update(j, s[i]).to_multiset() =~= s.to_multiset());
    }
}

impl Names {
    /// Borrows the table.
    pub fn as_ref(&self) -> (r: NamesRef<'_>)
        ensures
            r.entries@ == self.entries@,
            r.strings@ == self.strings@,
    {
        NamesRef { entries: self.entries.as_slice(), strings: self.strings.as_slice() }
    }

    /// The number of entries.
    pub fn len(&self) -> (r: usize)
        ensures
            r == self.entries@.len(),
    {
        self.entries.len()
    }

    /// Appends `name` to the string pool with an entry for `hash`.
    pub fn add(&mut self, name: &str, hash: u32)
        requires
            old(self).strings@.len() <= u16::MAX,
            name.spec_bytes().len() <= u16::MAX,
        ensures
            final(self).entries@ == old(self).entries@.push(
                LookupEntry {
                    hash,
                    offset: old(self).strings@.len() as u16,
                    len: name.spec_bytes().len() as u16,
                },
            ),
            final(self).strings@ == old(self).strings@ + name.spec_bytes(),
    {
        let offset = self.strings.len() as u16;
        let bytes = name.as_bytes();
        let len = bytes.len() as u16;
        self.entries.push(LookupEntry { hash, offset, len });
        let mut i: usize = 0;
        let ghost start = self.strings@;
        while i < bytes.len()
            invariant
                i <= bytes@.len(),
                bytes@ == name.spec_bytes(),
                self.strings@ == start + bytes@.take(i as int),
                start == old(self).strings@,
                self.entries@ == old(self).entries@.push(
                    LookupEntry {
                        hash,
                        offset: old(self).strings@.len() as u16,
                        len: name.spec_bytes().len() as u16,
                    },
                ),
            decreases bytes@.len() - i,
        {
            self.strings.push(bytes[i]);
            i += 1;
            assert(bytes@.take(i as int) =~= bytes@.take(i - 1).push(bytes@[i - 1]));
        }
        assert(bytes@.take(i as int) =~= bytes@);
    }

    /// Sorts the entries by hash and pads the string pool with zeros to a
    /// multiple of 8.
    ///
    /// Fails with `InvalidFormat`, leaving the table as it was, when two
    /// entries share a hash or an entry has hash 0.
    pub fn finalize(&mut self) -> (r: Result<(), ParseError>)
        ensures
            r is Ok <==> hashes_valid(old(self).entries@),
            r is Err ==> r == Err::<(), ParseError>(ParseError::InvalidFormat) && *final(self)
                == *old(self),
            r is Ok ==> {
                &&& final(self).entries@.to_multiset() == old(self).entries@.to_multiset()
                &&& final(self).entries@.len() == old(self).entries@.len()
                &&& strictly_sorted(final(self).entries@)
                &&& hashes_valid(final(self).entries@)
                &&& final(self).strings@.len() == round_up8(old(self).strings@.len())
                &&& final(self).strings@.take(old(self).strings@.len() as int)
                    == old(self).strings@
                &&& forall|i: int|
                    old(self).strings@.len() <= i < final(self).strings@.len()
                        ==> final(self).strings@[i] == 0
            },
    {
        let mut sorted = self.entries.clone();
        assert(sorted@ =~= self.entries@) by {
            assert forall|i: int| 0 <= i < sorted@.len() implies sorted@[i] == self.entries@[i] by {
            }
        }
        sort_by_hash(&mut sorted);
        let mut i: usize = 0;
        while i < sorted.len()
            invariant
                i <= sorted@.len(),
                sorted_by_hash(sorted@),
                sorted@.to_multiset() == old(self).entries@.to_multiset(),
                sorted@.len() == old(self).entries@.len(),
                *self == *old(self),
                forall|j: int| 0 <= j < i ==> sorted@[j].hash != 0,
                forall|j: int| 0 <= j < i && j + 1 < i ==> #[trigger] sorted@[j].hash < sorted@[j + 1].hash,
            decreases sorted@.len() - i,
        {
            if sorted[i].hash == 0 || (i > 0 && sorted[i - 1].hash == sorted[i].hash) {
                proof {
                    lemma_invalid_after_sort(self.entries@, sorted@, i as int);
                }
                return Err(ParseError::InvalidFormat);
            }
            i += 1;
        }
        proof {
            lemma_strict_from_adjacent(sorted@);
            lemma_valid_after_sort(self.entries@, sorted@);
        }
        self.entries = sorted;
        let len = self.strings.len();
        let ghost old_strings = self.strings@;
        let ghost new_entries = self.entries@;
        while self.strings.len() % 8 != 0
            invariant
                self.entries@ == new_entries,
                self.strings@.len() <= round_up8(old_strings.len()),
                self.strings@.len() >= old_strings.len(),
                self.strings@.take(old_strings.len() as int) == old_strings,
                forall|i: int|
                    old_strings.len() <= i < self.strings@.len() ==> self.strings@[i] == 0,
            decreases round_up8(old_strings.len()) - self.strings@.len(),
        {
            let ghost before = self.strings@;
            self.strings.push(0);
            assert(self.strings@.take(old_strings.len() as int) =~= before.take(
                old_strings.len() as int,
            ));
        }
        Ok(())
    }
}

/// Sorts entries ascending by hash (selection sort).
fn sort_by_hash(v: &mut Vec<LookupEntry>)
    ensures
        final(v)@.len() == old(v)@.len(),
        final(v)@.to_multiset() == old(v)@.to_multiset(),
        sorted_by_hash(final(v)@),
{
    let n = v.len();
    let mut i: usize = 0;
    while i < n
        invariant
            i <= n,
            n == v@.len(),
            v@.to_multiset() == old(v)@.to_multiset(),
            forall|a: int, b: int| 0 <= a < b < i ==> v@[a].hash <= v@[b].hash,
            forall|a: int, b: int| 0 <= a < i && i <= b < n ==> v@[a].hash <= v@[b].hash,
        decreases n - i,
    {
        let mut m: usize = i;
        let mut j: usize = i + 1;
        while j < n
            invariant
                i <= m < n,
                i < j <= n,
                n == v@.len(),
                forall|b: int| i <= b < j ==> v@[m as int].hash <= v@[b].hash,
            decreases n - j,
        {
            if v[j].hash < v[m].hash {
                m = j;
            }
            j += 1;
        }
        let a = v[i];
        let b = v[m];
        let ghost before = v@;
        v.set(i, b);
        v.set(m, a);
        proof {
            assert(v@ == before.update(i as int, before[m as int]).update(m as int, before[i as int]));
            lemma_swap_multiset(before, i as int, m as int);
        }
        i += 1;
    }
}

proof fn lemma_strict_from_adjacent(s: Seq<LookupEntry>)
    requires
        sorted_by_hash(s),
        forall|j: int| 0 <= j && j + 1 < s.len() ==> #[trigger] s[j].hash < s[j + 1].hash,
    ensures
        strictly_sorted(s),
{
    assert forall|i: int, j: int| 0 <= i < j < s.len() implies s[i].hash < s[j].hash by {
        assert(s[i].hash < s[i + 1].hash);
        assert(s[i + 1].hash <= s[j].hash);
    }
}

proof fn lemma_valid_after_sort(orig: Seq<LookupEntry>, s: Seq<LookupEntry>)
    requires
        s.to_multiset() == orig.to_multiset(),
        strictly_sorted(s),
        forall|j: int| 0 <= j < s.len() ==> s[j].hash != 0,
    ensures
        hashes_valid(orig),
        hashes_valid(s),
{
    broadcast use vstd::seq_lib::to_multiset_contains;

    assert forall|i: int| 0 <= i < orig.len() implies orig[i].hash != 0 by {
        assert(orig.contains(orig[i]));
        assert(orig.to_multiset().count(orig[i]) > 0);
        assert(s.to_multiset().count(orig[i]) > 0);
        assert(s.contains(orig[i]));
    }
    assert forall|i: int, j: int|
        0 <= i < orig.len() && 0 <= j < orig.len() && i != j implies orig[i].hash
        != orig[j].hash by {
        if orig[i].hash == orig[j].hash {
            lemma_dup_hash(orig, s, i, j);
        }
    }
    assert forall|i: int, j: int|
        0 <= i < s.len() && 0 <= j < s.len() && i != j implies s[i].hash != s[j].hash by {
        if i < j {
        } else {
        }
    }
}

/// Two entries of `orig` with one hash give two entries of `s` with it.
proof fn lemma_dup_hash(orig: Seq<LookupEntry>, s: Seq<LookupEntry>, i: int, j: int)
    requires
        s.to_multiset() == orig.to_multiset(),
        0 <= i < orig.len(),
        0 <= j < orig.len(),
        i != j,
        orig[i].hash == orig[j].hash,
    ensures
        exists|a: int, b: int|
            0 <= a < s.len() && 0 <= b < s.len() && a != b && s[a].hash == orig[i].hash
                && s[b].hash == orig[i].hash,
{
    broadcast use vstd::seq_lib::to_multiset_contains;
    broadcast use vstd::seq_lib::to_multiset_remove;

    let ei = orig[i];
    let ej = orig[j];
    assert(orig.contains(ei));
    assert(orig.to_multiset().count(ei) > 0);
    assert(s.to_multiset().count(ei) > 0);
    assert(s.contains(ei));
    let a = choose|a: int| 0 <= a < s.len() && s[a] == ei;
    // Remove the match of `ei` from both sides; `ej` is still in what is left.
    let o2 = orig.remove(i);
    let s2 = s.remove(a);
    assert(o2.to_multiset() == orig.to_multiset().remove(ei));
    assert(s2.to_multiset() == s.to_multiset().remove(s[a]));
    let jj = if j < i { j } else { j - 1 };
    assert(o2[jj] == ej);
    assert(o2.contains(ej));
    assert(o2.to_multiset().count(ej) > 0);
    assert(s2.to_multiset().count(ej) > 0);
    assert(s2.contains(ej));
    let b2 = choose|b: int| 0 <= b < s2.len() && s2[b] == ej;
    let b = if b2 < a { b2 } else { b2 + 1 };
    assert(s[b] == ej);
}

proof fn lemma_invalid_after_sort(orig: Seq<LookupEntry>, s: Seq<LookupEntry>, k: int)
    requires
        s.to_multiset() == orig.to_multiset(),
        0 <= k < s.len(),
        s[k].hash == 0 || (k > 0 && s[k - 1].hash == s[k].hash),
    ensures
        !hashes_valid(orig),
{
    broadcast use vstd::seq_lib::to_multiset_contains;

    if s[k].hash == 0 {
        assert(s.contains(s[k]));
        assert(s.to_multiset().count(s[k]) > 0);
        assert(orig.to_multiset().count(s[k]) > 0);
        assert(orig.contains(s[k]));
    } else {
        lemma_dup_hash(s, orig, k - 1, k);
    }
}

/// A name added before `finalize` is found again afterwards: if `before`
/// holds an entry with a non-zero hash whose bytes in `strings` are UTF-8, and
/// `after`/`padded` are what a successful `finalize` left (the same entries,
/// strictly sorted; the pool kept as a prefix), then the sorted table holds an
/// entry of that hash with a name, and every entry of that hash names the same
/// bytes. So `lookup` of that hash returns the added name.
pub proof fn lemma_lookup_after_finalize(
    before: Seq<LookupEntry>,
    strings: Seq<u8>,
    after: Seq<LookupEntry>,
    padded: Seq<u8>,
    k: int,
)
    requires
        0 <= k < before.len(),
        before[k].hash != 0,
        entry_has_name(strings, before[k]),
        after.to_multiset() == before.to_multiset(),
        strictly_sorted(after),
        padded.len() >= strings.len(),
        padded.take(strings.len() as int) == strings,
    ensures
        exists|i: int|
            0 <= i < after.len() && after[i].hash == before[k].hash && entry_has_name(
                padded,
                #[trigger] after[i],
            ),
        forall|i: int|
            0 <= i < after.len() && after[i].hash == before[k].hash ==> entry_bytes(
                padded,
                #[trigger] after[i],
            ) == entry_bytes(strings, before[k]),
{
    broadcast use vstd::seq_lib::to_multiset_contains;

    let e = before[k];
    assert(before.contains(e));
    assert(before.to_multiset().count(e) > 0);
    assert(after.to_multiset().count(e) > 0);
    assert(after.contains(e));
    let w = choose|w: int| 0 <= w < after.len() && after[w] == e;
    let lo = e.offset as int;
    let hi = e.offset as int + e.len as int;
    assert(padded.subrange(lo, hi) =~= strings.subrange(lo, hi)) by {
        assert forall|t: int| lo <= t < hi implies padded[t] == strings[t] by {
            assert(padded.take(strings.len() as int)[t] == padded[t]);
        }
    }
    assert(entry_has_name(padded, after[w]));
    assert forall|i: int|
        0 <= i < after.len() && after[i].hash == e.hash implies entry_bytes(
        padded,
        #[trigger] after[i],
    ) == entry_bytes(strings, e) by {
        if i != w {
            if i < w {
                assert(after[i].hash < after[w].hash);
            } else {
                assert(after[w].hash < after[i].hash);
            }
        }
    }
}

} // verus!
