//! Little-endian integers in byte sequences.

use vstd::prelude::*;

verus! {

/// The 16-bit little-endian integer that starts at `at`.
pub open spec fn le16(s: Seq<u8>, at: int) -> int {
    s[at] + 0x100 * s[at + 1]
}

/// The 32-bit little-endian integer that starts at `at`.
pub open spec fn le32(s: Seq<u8>, at: int) -> int {
    le16(s, at) + 0x1_0000 * le16(s, at + 2)
}

/// The 64-bit little-endian integer that starts at `at`.
pub open spec fn le64(s: Seq<u8>, at: int) -> int {
    le32(s, at) + 0x1_0000_0000 * le32(s, at + 4)
}

/// The two little-endian bytes of a 16-bit integer.
pub open spec fn bytes16(v: int) -> Seq<u8> {
    seq![(v % 0x100) as u8, (v / 0x100) as u8]
}

/// The four little-endian bytes of a 32-bit integer.
pub open spec fn bytes32(v: int) -> Seq<u8> {
    bytes16(v % 0x1_0000) + bytes16(v / 0x1_0000)
}

/// The eight little-endian bytes of a 64-bit integer.
pub open spec fn bytes64(v: int) -> Seq<u8> {
    bytes32(v % 0x1_0000_0000) + bytes32(v / 0x1_0000_0000)
}

/// `count` bytes of value `value`.
pub open spec fn filled(value: u8, count: int) -> Seq<u8> {
    Seq::new(if count < 0 { 0 } else { count as nat }, |i: int| value)
}

/// `s` with the bytes from `at` on replaced by `patch`.
pub open spec fn patched(s: Seq<u8>, at: int, patch: Seq<u8>) -> Seq<u8> {
    s.take(at) + patch + s.skip(at + patch.len())
}

/// Reading back what `bytes16` wrote gives the value.
pub proof fn lemma_bytes16(v: int)
    requires
        0 <= v < 0x1_0000,
    ensures
        bytes16(v).len() == 2,
        le16(bytes16(v), 0) == v,
{
}

/// Reading back what `bytes32` wrote gives the value.
pub proof fn lemma_bytes32(v: int)
    requires
        0 <= v < 0x1_0000_0000,
    ensures
        bytes32(v).len() == 4,
        le32(bytes32(v), 0) == v,
{
    lemma_bytes16(v % 0x1_0000);
    lemma_bytes16(v / 0x1_0000);
}

/// Reading back what `bytes64` wrote gives the value.
pub proof fn lemma_bytes64(v: int)
    requires
        0 <= v < 0x1_0000_0000_0000_0000,
    ensures
        bytes64(v).len() == 8,
        le64(bytes64(v), 0) == v,
{
    let low = v % 0x1_0000_0000;
    let high = v / 0x1_0000_0000;
    lemma_bytes32(low);
    lemma_bytes32(high);
    let s = bytes64(v);
    assert(le32(s, 0) == low) by {
        assert forall|i: int| 0 <= i < 4 implies s[i] == bytes32(low)[i] by {}
    }
    assert(le32(s, 4) == high) by {
        assert forall|i: int| 0 <= i < 4 implies s[i + 4] == bytes32(high)[i] by {}
    }
}

/// Numbers are stored with their lowest byte first.
pub proof fn law_numbers_start_with_their_lowest_byte(s: Seq<u8>, at: int)
    ensures
        le16(s, at) == s[at] + 256 * s[at + 1],
        le32(s, at) == s[at] + 256 * s[at + 1] + 65_536 * s[at + 2] + 16_777_216 * s[at + 3],
        le64(s, at) == s[at] + 256 * s[at + 1] + 65_536 * s[at + 2] + 16_777_216 * s[at + 3]
            + 4_294_967_296 * s[at + 4] + 1_099_511_627_776 * s[at + 5] + 281_474_976_710_656
            * s[at + 6] + 72_057_594_037_927_936 * s[at + 7],
{
}

pub fn read_u16(data: &[u8], at: usize) -> (value: u16)
    requires
        at + 2 <= data@.len(),
    ensures
        value == le16(data@, at as int),
{
    data[at] as u16 + 0x100 * (data[at + 1] as u16)
}

pub fn read_u32(data: &[u8], at: usize) -> (value: u32)
    requires
        at + 4 <= data@.len(),
    ensures
        value == le32(data@, at as int),
{
    assert(data.len() <= usize::MAX);
    read_u16(data, at) as u32 + 0x1_0000 * (read_u16(data, at + 2) as u32)
}

pub fn read_u64(data: &[u8], at: usize) -> (value: u64)
    requires
        at + 8 <= data@.len(),
    ensures
        value == le64(data@, at as int),
{
    assert(data.len() <= usize::MAX);
    read_u32(data, at) as u64 + 0x1_0000_0000 * (read_u32(data, at + 4) as u64)
}

pub fn push_u16(out: &mut Vec<u8>, value: u16)
    ensures
        final(out)@ == old(out)@ + bytes16(value as int),
{
    out.push((value % 0x100) as u8);
    out.push((value / 0x100) as u8);
}

pub fn push_u32(out: &mut Vec<u8>, value: u32)
    ensures
        final(out)@ == old(out)@ + bytes32(value as int),
{
    push_u16(out, (value % 0x1_0000) as u16);
    push_u16(out, (value / 0x1_0000) as u16);
}

pub fn push_u64(out: &mut Vec<u8>, value: u64)
    ensures
        final(out)@ == old(out)@ + bytes64(value as int),
{
    push_u32(out, (value % 0x1_0000_0000) as u32);
    push_u32(out, (value / 0x1_0000_0000) as u32);
}

pub fn push_all(out: &mut Vec<u8>, data: &[u8])
    ensures
        final(out)@ == old(out)@ + data@,
{
    let mut i: usize = 0;
    while i < data.len()
        invariant
            i <= data@.len(),
            out@ == old(out)@ + data@.take(i as int),
        decreases data@.len() - i,
    {
        out.push(data[i]);
        i += 1;
    }
    assert(data@.take(i as int) == data@);
}

pub fn push_filled(out: &mut Vec<u8>, value: u8, count: usize)
    ensures
        final(out)@ == old(out)@ + filled(value, count as int),
{
    let mut i: usize = 0;
    while i < count
        invariant
            i <= count,
            out@ == old(out)@ + filled(value, i as int),
        decreases count - i,
    {
        out.push(value);
        i += 1;
    }
}

/// A copy of the bytes from `from` up to `to`.
pub fn copy_range(data: &[u8], from: usize, to: usize) -> (copy: Vec<u8>)
    requires
        from <= to <= data@.len(),
    ensures
        copy@ == data@.subrange(from as int, to as int),
{
    let mut copy: Vec<u8> = Vec::new();
    push_all(&mut copy, &data[from..to]);
    copy
}

/// Writes `data` over the bytes from `at` on.
pub fn overwrite(out: &mut Vec<u8>, at: usize, data: &[u8])
    requires
        at + data@.len() <= old(out)@.len(),
    ensures
        final(out)@ == patched(old(out)@, at as int, data@),
        final(out)@.len() == old(out)@.len(),
{
    assert(out.len() <= usize::MAX);
    let mut i: usize = 0;
    while i < data.len()
        invariant
            i <= data@.len(),
            at + data@.len() <= old(out)@.len(),
            old(out)@.len() <= usize::MAX,
            out@.len() == old(out)@.len(),
            forall|k: int|
                0 <= k < out@.len() ==> #[trigger] out@[k] == if at <= k < at + i {
                    data@[k - at]
                } else {
                    old(out)@[k]
                },
        decreases data@.len() - i,
    {
        out[at + i] = data[i];
        i += 1;
    }
    assert(out@ =~= patched(old(out)@, at as int, data@));
}

pub fn same_bytes(a: &[u8], b: &[u8]) -> (same: bool)
    ensures
        same == (a@ == b@),
{
    if a.len() != b.len() {
        return false;
    }
    let mut i: usize = 0;
    while i < a.len()
        invariant
            i <= a@.len(),
            a@.len() == b@.len(),
            forall|k: int| 0 <= k < i ==> a@[k] == b@[k],
        decreases a@.len() - i,
    {
        if a[i] != b[i] {
            return false;
        }
        i += 1;
    }
    assert(a@ =~= b@);
    true
}

/// True when `needle` stands in `s` at `at`.
pub open spec fn stands_at(s: Seq<u8>, at: int, needle: Seq<u8>) -> bool {
    0 <= at && at + needle.len() <= s.len() && s.subrange(at, at + needle.len()) == needle
}

pub fn matches_at(data: &[u8], at: usize, needle: &[u8]) -> (found: bool)
    ensures
        found == stands_at(data@, at as int, needle@),
{
    if at > data.len() || needle.len() > data.len() - at {
        return false;
    }
    same_bytes(&data[at..at + needle.len()], needle)
}

/// The first position from `from` on at which `needle` stands in `s`.
pub open spec fn first_match(s: Seq<u8>, needle: Seq<u8>, from: int) -> Option<int>
    decreases s.len() - from,
{
    if from < 0 || from + needle.len() > s.len() || from > s.len() {
        None
    } else if stands_at(s, from, needle) {
        Some(from)
    } else if from == s.len() {
        None
    } else {
        first_match(s, needle, from + 1)
    }
}

pub fn find_bytes(data: &[u8], needle: &[u8], from: usize) -> (found: Option<usize>)
    ensures
        match found {
            Some(at) => first_match(data@, needle@, from as int) == Some(at as int),
            None => first_match(data@, needle@, from as int) is None,
        },
{
    let mut at: usize = from;
    while at <= data.len() && needle.len() <= data.len() - at
        invariant
            from <= at,
            at <= data@.len() + 1 || at == from,
            first_match(data@, needle@, from as int) == first_match(data@, needle@, at as int),
        decreases data@.len() + 1 - at,
    {
        if matches_at(data, at, needle) {
            return Some(at);
        }
        if at == data.len() {
            return None;
        }
        at += 1;
    }
    None
}

/// True when every byte of `s` is `value`.
pub open spec fn all_equal(s: Seq<u8>, value: u8) -> bool {
    forall|i: int| 0 <= i < s.len() ==> s[i] == value
}

pub fn is_filled(data: &[u8], value: u8) -> (same: bool)
    ensures
        same == all_equal(data@, value),
{
    let mut i: usize = 0;
    while i < data.len()
        invariant
            i <= data@.len(),
            forall|k: int| 0 <= k < i ==> data@[k] == value,
        decreases data@.len() - i,
    {
        if data[i] != value {
            return false;
        }
        i += 1;
    }
    true
}

/// A search gives the first place from `from` on at which the bytes stand, and
/// nothing where they stand nowhere.
pub proof fn law_first_matches_are_first(s: Seq<u8>, needle: Seq<u8>, from: int)
    requires
        from >= 0,
    ensures
        match first_match(s, needle, from) {
            Some(at) => {
                &&& from <= at && at + needle.len() <= s.len()
                &&& forall|i: int| 0 <= i < needle.len() ==> #[trigger] s[at + i] == needle[i]
                &&& forall|k: int| from <= k < at ==> !(#[trigger] stands_at(s, k, needle))
            },
            None => forall|k: int| k >= from ==> !(#[trigger] stands_at(s, k, needle)),
        },
    decreases s.len() - from,
{
    if from + needle.len() <= s.len() {
        if stands_at(s, from, needle) {
            let part = s.subrange(from, from + needle.len());
            assert forall|i: int| 0 <= i < needle.len() implies #[trigger] s[from + i] == needle[i] by {
                assert(part[i] == s[from + i]);
            }
        } else if from < s.len() {
            law_first_matches_are_first(s, needle, from + 1);
        }
    }
}

} // verus!
