//! GUID partition tables.

use vstd::prelude::*;

use crate::bytes;
use crate::text;

verus! {

pub const GPT_HEADER_OFFSET: u64 = 512;

pub const GPT_HEADER_SIZE: usize = 92;

pub const GPT_ENTRY_MIN_SIZE: u32 = 128;

pub const GPT_ENTRY_MAX_SIZE: u32 = 4096;

pub const GPT_ENTRY_MAX_COUNT: u32 = 16384;

pub const LOGICAL_BLOCK_SIZE: u64 = 512;

pub const MAX_LOGICAL_BLOCK_SIZE: u64 = 16384;

/// How far a table is searched for at the head of a storage.
pub const STORAGE_HEAD_SCAN_LIMIT: usize = 0x10_0000;

/// How far tables are searched for in an image.
pub const PTABLE_SCAN_LIMIT: usize = 0x100_0000;

#[derive(Debug, Clone)]
pub struct GptHeader {
    pub revision: u32,
    pub header_size: u32,
    pub current_lba: u64,
    pub backup_lba: u64,
    pub first_usable_lba: u64,
    pub last_usable_lba: u64,
    pub disk_guid: String,
    pub partition_entry_lba: u64,
    pub partition_entry_count: u32,
    pub partition_entry_size: u32,
}

#[verifier::ext_equal]
pub struct HeaderModel {
    pub revision: int,
    pub header_size: int,
    pub current_lba: int,
    pub backup_lba: int,
    pub first_usable_lba: int,
    pub last_usable_lba: int,
    pub disk_guid: Seq<char>,
    pub partition_entry_lba: int,
    pub partition_entry_count: int,
    pub partition_entry_size: int,
}

impl View for GptHeader {
    type V = HeaderModel;

    open spec fn view(&self) -> HeaderModel {
        HeaderModel {
            revision: self.revision as int,
            header_size: self.header_size as int,
            current_lba: self.current_lba as int,
            backup_lba: self.backup_lba as int,
            first_usable_lba: self.first_usable_lba as int,
            last_usable_lba: self.last_usable_lba as int,
            disk_guid: self.disk_guid@,
            partition_entry_lba: self.partition_entry_lba as int,
            partition_entry_count: self.partition_entry_count as int,
            partition_entry_size: self.partition_entry_size as int,
        }
    }
}

#[derive(Debug, Clone)]
pub struct GptPartition {
    pub index: u32,
    pub type_guid: String,
    pub unique_guid: String,
    pub first_lba: u64,
    pub last_lba: u64,
    pub attributes: u64,
    pub name: String,
}

#[verifier::ext_equal]
pub struct PartitionModel {
    pub index: int,
    pub type_guid: Seq<char>,
    pub unique_guid: Seq<char>,
    pub first_lba: int,
    pub last_lba: int,
    pub attributes: int,
    pub name: Seq<char>,
}

impl View for GptPartition {
    type V = PartitionModel;

    open spec fn view(&self) -> PartitionModel {
        PartitionModel {
            index: self.index as int,
            type_guid: self.type_guid@,
            unique_guid: self.unique_guid@,
            first_lba: self.first_lba as int,
            last_lba: self.last_lba as int,
            attributes: self.attributes as int,
            name: self.name@,
        }
    }
}

/// A count that stays in the range of 64 bits.
pub open spec fn saturated(n: int) -> int {
    if n > u64::MAX {
        u64::MAX as int
    } else {
        n
    }
}

impl GptPartition {
    /// How many sectors the partition has; one that ends before it starts has
    /// one.
    pub open spec fn sectors(&self) -> int {
        saturated(
            if self.last_lba < self.first_lba {
                1
            } else {
                self.last_lba - self.first_lba + 1
            },
        )
    }

    pub fn sector_count(&self) -> (count: u64)
        ensures
            count == self.sectors(),
    {
        self.last_lba.saturating_sub(self.first_lba).saturating_add(1)
    }

    pub fn byte_len(&self, block_size: u64) -> (length: u64)
        ensures
            length == saturated(self.sectors() * block_size),
    {
        let count: u64 = self.sector_count();
        assert(count * block_size <= 0xffff_ffff_ffff_ffff * 0xffff_ffff_ffff_ffff)
            by (nonlinear_arith)
            requires
                0 <= count <= 0xffff_ffff_ffff_ffff,
                0 <= block_size <= 0xffff_ffff_ffff_ffff,
        ;
        let product: u128 = (count as u128) * (block_size as u128);
        assert(product == self.sectors() * block_size);
        if product > u64::MAX as u128 {
            u64::MAX
        } else {
            product as u64
        }
    }
}

#[derive(Debug, Clone)]
pub struct GptTable {
    pub image_offset: u64,
    pub entry_array_offset: u64,
    pub block_size: u64,
    pub header: GptHeader,
    pub partitions: Vec<GptPartition>,
}

#[verifier::ext_equal]
pub struct TableModel {
    pub image_offset: int,
    pub entry_array_offset: int,
    pub block_size: int,
    pub header: HeaderModel,
    pub partitions: Seq<PartitionModel>,
}

pub open spec fn partition_models(list: Seq<GptPartition>) -> Seq<PartitionModel> {
    list.map_values(|p: GptPartition| p@)
}

impl View for GptTable {
    type V = TableModel;

    open spec fn view(&self) -> TableModel {
        TableModel {
            image_offset: self.image_offset as int,
            entry_array_offset: self.entry_array_offset as int,
            block_size: self.block_size as int,
            header: self.header@,
            partitions: partition_models(self.partitions@),
        }
    }
}

pub open spec fn table_models(list: Seq<GptTable>) -> Seq<TableModel> {
    list.map_values(|t: GptTable| t@)
}

#[derive(Debug, Clone)]
pub struct GptInfo {
    pub tables: Vec<GptTable>,
}

/// How many partitions the first `n` tables have together.
pub open spec fn partitions_in(tables: Seq<TableModel>, n: int) -> int
    decreases n,
{
    if n <= 0 {
        0
    } else {
        partitions_in(tables, n - 1) + tables[n - 1].partitions.len()
    }
}

impl GptInfo {
    /// How many partitions there are. Their number is at most that of all the
    /// entries that tables may have.
    pub fn partition_count(&self) -> (count: usize)
        requires
            partitions_in(table_models(self.tables@), self.tables@.len() as int) <= usize::MAX,
        ensures
            count == partitions_in(table_models(self.tables@), self.tables@.len() as int),
    {
        let ghost all = table_models(self.tables@);
        let mut count: usize = 0;
        let mut n: usize = 0;
        while n < self.tables.len()
            invariant
                n <= self.tables@.len(),
                all == table_models(self.tables@),
                count == partitions_in(all, n as int),
                partitions_in(all, all.len() as int) <= usize::MAX,
            decreases self.tables@.len() - n,
        {
            proof {
                assert(all[n as int].partitions.len() == self.tables@[n as int].partitions@.len());
                lemma_partitions_grow(all, n + 1, all.len() as int);
            }
            count += self.tables[n].partitions.len();
            n += 1;
        }
        count
    }
}

proof fn lemma_partitions_grow(tables: Seq<TableModel>, n: int, m: int)
    requires
        0 <= n <= m,
    ensures
        partitions_in(tables, n) <= partitions_in(tables, m),
    decreases m,
{
    if n < m {
        lemma_partitions_grow(tables, n, m - 1);
    }
}

/// Why there is no partition table.
#[derive(Debug, Clone, Copy, PartialEq, Eq, Structural)]
pub enum GptError {
    TooSmall,
    MissingSignature,
    HeaderSize,
    EntryCount,
    EntrySize,
    BlockSize,
    EntryOffset,
    EntryArray,
}

// ---------------------------------------------------------------------------
// Identifiers and names
// ---------------------------------------------------------------------------

/// The digit of a number below sixteen, with large letters.
pub open spec fn large_digit(n: int) -> char {
    if n < 10 {
        (48 + n) as u8 as char
    } else {
        (55 + n) as u8 as char
    }
}

/// The two digits of a byte.
pub open spec fn byte_digits(b: u8) -> Seq<char> {
    seq![large_digit(b as int / 16), large_digit(b as int % 16)]
}

/// An identifier as it is written. The bytes of its first three parts are
/// swapped.
pub open spec fn guid_text(b: Seq<u8>) -> Seq<char> {
    byte_digits(b[3]) + byte_digits(b[2]) + byte_digits(b[1]) + byte_digits(b[0]) + seq!['-']
        + byte_digits(b[5]) + byte_digits(b[4]) + seq!['-'] + byte_digits(b[7]) + byte_digits(b[6])
        + seq!['-'] + byte_digits(b[8]) + byte_digits(b[9]) + seq!['-'] + byte_digits(b[10])
        + byte_digits(b[11]) + byte_digits(b[12]) + byte_digits(b[13]) + byte_digits(b[14])
        + byte_digits(b[15])
}

fn push_byte(out: &mut Vec<char>, b: u8)
    ensures
        final(out)@ == old(out)@ + byte_digits(b),
{
    let high: u8 = b / 16;
    let low: u8 = b % 16;
    out.push(
        if high < 10 {
            (48 + high) as char
        } else {
            (55 + high) as char
        },
    );
    out.push(
        if low < 10 {
            (48 + low) as char
        } else {
            (55 + low) as char
        },
    );
    assert(out@ =~= old(out)@ + byte_digits(b));
}

pub fn format_guid(b: &[u8]) -> (guid: String)
    requires
        b@.len() == 16,
    ensures
        guid@ == guid_text(b@),
{
    let mut out: Vec<char> = Vec::new();
    push_byte(&mut out, b[3]);
    push_byte(&mut out, b[2]);
    push_byte(&mut out, b[1]);
    push_byte(&mut out, b[0]);
    out.push('-');
    push_byte(&mut out, b[5]);
    push_byte(&mut out, b[4]);
    out.push('-');
    push_byte(&mut out, b[7]);
    push_byte(&mut out, b[6]);
    out.push('-');
    push_byte(&mut out, b[8]);
    push_byte(&mut out, b[9]);
    out.push('-');
    push_byte(&mut out, b[10]);
    push_byte(&mut out, b[11]);
    push_byte(&mut out, b[12]);
    push_byte(&mut out, b[13]);
    push_byte(&mut out, b[14]);
    push_byte(&mut out, b[15]);
    assert(out@ =~= guid_text(b@));
    text::string_of(out.as_slice())
}

/// The code units of a name: those before the first that is zero.
pub open spec fn name_units(b: Seq<u8>, from: int) -> Seq<int>
    decreases b.len() - from,
{
    if from < 0 || from + 2 > b.len() || bytes::le16(b, from) == 0 {
        seq![]
    } else {
        seq![bytes::le16(b, from)] + name_units(b, from + 2)
    }
}

pub open spec fn is_high(unit: int) -> bool {
    0xd800 <= unit <= 0xdbff
}

pub open spec fn is_low(unit: int) -> bool {
    0xdc00 <= unit <= 0xdfff
}

/// The text of UTF-16 code units, with the replacement character for every
/// surrogate that has no partner.
pub open spec fn utf16(units: Seq<int>) -> Seq<char>
    decreases units.len(),
{
    if units.len() == 0 {
        seq![]
    } else if is_high(units[0]) && units.len() > 1 && is_low(units[1]) {
        seq![(0x1_0000 + (units[0] - 0xd800) * 0x400 + (units[1] - 0xdc00)) as char] + utf16(
            units.skip(2),
        )
    } else if is_high(units[0]) || is_low(units[0]) {
        seq!['\u{fffd}'] + utf16(units.skip(1))
    } else {
        seq![units[0] as char] + utf16(units.skip(1))
    }
}

fn char_of(code: u32) -> (c: char)
    requires
        code <= 0x10ffff,
        !(0xd800 <= code <= 0xdfff),
    ensures
        c as u32 == code,
{
    match char::from_u32(code) {
        Some(c) => c,
        None => '\0',
    }
}

/// Reads a name, which ends at a zero.
pub fn parse_name(b: &[u8]) -> (name: String)
    ensures
        name@ == utf16(name_units(b@, 0)),
{
    let mut units: Vec<u16> = Vec::new();
    let ghost all = name_units(b@, 0);
    let mut i: usize = 0;
    assert(units@.map_values(|u: u16| u as int) + name_units(b@, 0) =~= all);
    assert(b.len() <= usize::MAX);
    while b.len() - i >= 2 && bytes::read_u16(b, i) != 0
        invariant
            i <= b@.len() <= usize::MAX,
            units@.map_values(|u: u16| u as int) + name_units(b@, i as int) == all,
        decreases b@.len() - i,
    {
        let unit: u16 = bytes::read_u16(b, i);
        let ghost before = units@.map_values(|u: u16| u as int);
        units.push(unit);
        assert(units@.map_values(|u: u16| u as int) =~= before.push(unit as int));
        i += 2;
        assert(units@.map_values(|u: u16| u as int) + name_units(b@, i as int) =~= all);
    }
    assert(units@.map_values(|u: u16| u as int) =~= all);
    let mut out: Vec<char> = Vec::new();
    let mut k: usize = 0;
    assert(all.skip(0) =~= all);
    assert(out@ + utf16(all) =~= utf16(all));
    while k < units.len()
        invariant
            k <= units@.len(),
            all == units@.map_values(|u: u16| u as int),
            out@ + utf16(all.skip(k as int)) == utf16(all),
        decreases units@.len() - k,
    {
        let unit: u16 = units[k];
        let ghost rest = all.skip(k as int);
        assert(rest[0] == unit);
        let high = 0xd800 <= unit && unit <= 0xdbff;
        let low = 0xdc00 <= unit && unit <= 0xdfff;
        let ghost before = out@;
        if high && k + 1 < units.len() && 0xdc00 <= units[k + 1] && units[k + 1] <= 0xdfff {
            let code: u32 = 0x1_0000 + (unit as u32 - 0xd800) * 0x400 + (units[k + 1] as u32
                - 0xdc00);
            assert(rest[1] == units@[k + 1]);
            assert(rest.skip(2) =~= all.skip(k + 2));
            let c = char_of(code);
            out.push(c);
            assert(before + (seq![c] + utf16(rest.skip(2))) =~= out@ + utf16(rest.skip(2)));
            k += 2;
        } else {
            assert(k + 1 < units@.len() ==> rest[1] == units@[k + 1]);
            assert(rest.skip(1) =~= all.skip(k + 1));
            let c = if high || low {
                '\u{fffd}'
            } else {
                char_of(unit as u32)
            };
            out.push(c);
            assert(before + (seq![c] + utf16(rest.skip(1))) =~= out@ + utf16(rest.skip(1)));
            k += 1;
        }
    }
    assert(all.skip(k as int).len() == 0);
    assert(out@ =~= utf16(all));
    text::string_of(out.as_slice())
}

// ---------------------------------------------------------------------------
// Headers and entries
// ---------------------------------------------------------------------------

/// The bytes that a header starts with.
pub open spec fn signature() -> Seq<u8> {
    seq![0x45u8, 0x46, 0x49, 0x20, 0x50, 0x41, 0x52, 0x54]
}

/// True when a header may stand at an offset.
pub open spec fn signed_at(data: Seq<u8>, offset: int) -> bool {
    bytes::stands_at(data, offset, signature())
}

fn is_signed(data: &[u8], offset: usize) -> (signed: bool)
    ensures
        signed == signed_at(data@, offset as int),
{
    let mut wanted: Vec<u8> = Vec::new();
    wanted.push(0x45);
    wanted.push(0x46);
    wanted.push(0x49);
    wanted.push(0x20);
    wanted.push(0x50);
    wanted.push(0x41);
    wanted.push(0x52);
    wanted.push(0x54);
    assert(wanted@ =~= signature());
    bytes::matches_at(data, offset, wanted.as_slice())
}

/// The header that the data starts with.
#[verifier::opaque]
pub open spec fn header_of(b: Seq<u8>) -> Result<HeaderModel, GptError> {
    let header_size = bytes::le32(b, 12);
    let count = bytes::le32(b, 80);
    let size = bytes::le32(b, 84);
    if b.len() < GPT_HEADER_SIZE {
        Err(GptError::TooSmall)
    } else if !signed_at(b, 0) {
        Err(GptError::MissingSignature)
    } else if !(GPT_HEADER_SIZE <= header_size <= MAX_LOGICAL_BLOCK_SIZE) {
        Err(GptError::HeaderSize)
    } else if count > GPT_ENTRY_MAX_COUNT {
        Err(GptError::EntryCount)
    } else if !(GPT_ENTRY_MIN_SIZE <= size <= GPT_ENTRY_MAX_SIZE) {
        Err(GptError::EntrySize)
    } else {
        Ok(
            HeaderModel {
                revision: bytes::le32(b, 8),
                header_size,
                current_lba: bytes::le64(b, 24),
                backup_lba: bytes::le64(b, 32),
                first_usable_lba: bytes::le64(b, 40),
                last_usable_lba: bytes::le64(b, 48),
                disk_guid: guid_text(b.subrange(56, 72)),
                partition_entry_lba: bytes::le64(b, 72),
                partition_entry_count: count,
                partition_entry_size: size,
            },
        )
    }
}

pub fn parse_header_bytes(b: &[u8]) -> (header: Result<GptHeader, GptError>)
    ensures
        match header {
            Ok(found) => header_of(b@) == Ok::<HeaderModel, GptError>(found@) && is_header(found@),
            Err(error) => header_of(b@) == Err::<HeaderModel, GptError>(error),
        },
{
    reveal(header_of);
    if b.len() < GPT_HEADER_SIZE {
        return Err(GptError::TooSmall);
    }
    if !is_signed(b, 0) {
        return Err(GptError::MissingSignature);
    }
    let header_size: u32 = bytes::read_u32(b, 12);
    if header_size < 92 || header_size > 16384 {
        return Err(GptError::HeaderSize);
    }
    let count: u32 = bytes::read_u32(b, 80);
    let size: u32 = bytes::read_u32(b, 84);
    if count > GPT_ENTRY_MAX_COUNT {
        return Err(GptError::EntryCount);
    }
    if size < GPT_ENTRY_MIN_SIZE || size > GPT_ENTRY_MAX_SIZE {
        return Err(GptError::EntrySize);
    }
    Ok(
        GptHeader {
            revision: bytes::read_u32(b, 8),
            header_size,
            current_lba: bytes::read_u64(b, 24),
            backup_lba: bytes::read_u64(b, 32),
            first_usable_lba: bytes::read_u64(b, 40),
            last_usable_lba: bytes::read_u64(b, 48),
            disk_guid: format_guid(&b[56..72]),
            partition_entry_lba: bytes::read_u64(b, 72),
            partition_entry_count: count,
            partition_entry_size: size,
        },
    )
}

/// The partition of an entry; none where the entry is unused, or ends before it
/// starts.
#[verifier::opaque]
pub open spec fn partition_of(b: Seq<u8>, index: int) -> Option<PartitionModel> {
    let first = bytes::le64(b, 32);
    let last = bytes::le64(b, 40);
    if bytes::all_equal(b.take(16), 0) || last < first {
        None
    } else {
        Some(
            PartitionModel {
                index,
                type_guid: guid_text(b.take(16)),
                unique_guid: guid_text(b.subrange(16, 32)),
                first_lba: first,
                last_lba: last,
                attributes: bytes::le64(b, 48),
                name: utf16(name_units(b.subrange(56, 128), 0)),
            },
        )
    }
}

pub fn parse_entry(b: &[u8], index: u32) -> (partition: Option<GptPartition>)
    requires
        b@.len() >= GPT_ENTRY_MIN_SIZE,
    ensures
        match partition {
            Some(found) => partition_of(b@, index as int) == Some(found@),
            None => partition_of(b@, index as int) is None,
        },
{
    reveal(partition_of);
    assert(b@.take(16) =~= b@.subrange(0, 16));
    if bytes::is_filled(&b[0..16], 0) {
        return None;
    }
    let first: u64 = bytes::read_u64(b, 32);
    let last: u64 = bytes::read_u64(b, 40);
    if last < first {
        return None;
    }
    Some(
        GptPartition {
            index,
            type_guid: format_guid(&b[0..16]),
            unique_guid: format_guid(&b[16..32]),
            first_lba: first,
            last_lba: last,
            attributes: bytes::read_u64(b, 48),
            name: parse_name(&b[56..128]),
        },
    )
}

/// The bytes of an entry.
pub open spec fn entry_at(data: Seq<u8>, offset: int, size: int, index: int) -> Seq<u8> {
    data.subrange(offset + index * size, offset + index * size + size)
}

/// The partitions of the first `n` entries of an array.
pub open spec fn partitions_at(data: Seq<u8>, offset: int, size: int, n: int) -> Seq<PartitionModel>
    decreases n,
{
    if n <= 0 {
        seq![]
    } else {
        let before = partitions_at(data, offset, size, n - 1);
        match partition_of(entry_at(data, offset, size, n - 1), n - 1) {
            Some(p) => before.push(p),
            None => before,
        }
    }
}

/// True when the entries of a header lie within the data.
pub open spec fn array_fits(data: Seq<u8>, offset: int, header: HeaderModel) -> bool {
    offset + header.partition_entry_count * header.partition_entry_size <= data.len()
}

/// The partitions of an array, where it lies within the data.
pub open spec fn array_at(data: Seq<u8>, offset: int, header: HeaderModel) -> Option<
    Seq<PartitionModel>,
> {
    if array_fits(data, offset, header) {
        Some(
            partitions_at(
                data,
                offset,
                header.partition_entry_size,
                header.partition_entry_count,
            ),
        )
    } else {
        None
    }
}

/// True when the numbers of a header are in their range.
pub open spec fn is_header(h: HeaderModel) -> bool {
    &&& 0 <= h.partition_entry_count <= GPT_ENTRY_MAX_COUNT
    &&& GPT_ENTRY_MIN_SIZE <= h.partition_entry_size <= GPT_ENTRY_MAX_SIZE
    &&& 0 <= h.current_lba
    &&& 0 <= h.partition_entry_lba
}

pub fn parse_partitions_in(data: &[u8], offset: u64, header: &GptHeader) -> (list: Option<
    Vec<GptPartition>,
>)
    requires
        is_header(header@),
    ensures
        match list {
            Some(found) => array_at(data@, offset as int, header@) == Some(
                partition_models(found@),
            ),
            None => array_at(data@, offset as int, header@) is None,
        },
{
    let count: u32 = header.partition_entry_count;
    let size: u32 = header.partition_entry_size;
    assert(count * size <= 16384 * 4096) by (nonlinear_arith)
        requires
            count <= 16384,
            size <= 4096,
    ;
    let length: u64 = (count * size) as u64;
    if offset as u128 + length as u128 > data.len() as u128 {
        return None;
    }
    let mut list: Vec<GptPartition> = Vec::new();
    let mut n: u32 = 0;
    assert(partition_models(list@) =~= Seq::<PartitionModel>::empty());
    assert(data.len() <= usize::MAX);
    while n < count
        invariant
            n <= count,
            count <= 16384,
            128 <= size <= 4096,
            length == count * size,
            length <= 0x400_0000,
            offset + length <= data@.len() <= usize::MAX,
            partition_models(list@) == partitions_at(data@, offset as int, size as int, n as int),
        decreases count - n,
    {
        assert(n * size + size <= length && n * size >= 0) by (nonlinear_arith)
            requires
                n < count,
                length == count * size,
                size >= 128,
        ;
        let start: usize = offset as usize + (n * size) as usize;
        let entry = &data[start..start + size as usize];
        assert(entry@ =~= entry_at(data@, offset as int, size as int, n as int));
        let ghost before = partition_models(list@);
        match parse_entry(entry, n) {
            Some(partition) => {
                let ghost model = partition@;
                list.push(partition);
                assert(partition_models(list@) =~= before.push(model));
            },
            None => {},
        }
        n += 1;
    }
    Some(list)
}

// ---------------------------------------------------------------------------
// Tables
// ---------------------------------------------------------------------------

/// Of the two places where the entries of a header may stand, the one with more
/// partitions, and of two alike the first.
pub open spec fn best_array(data: Seq<u8>, standard: int, adjacent: int, header: HeaderModel) -> Option<
    (int, Seq<PartitionModel>),
> {
    match (array_at(data, standard, header), array_at(data, adjacent, header)) {
        (Some(a), Some(b)) => if b.len() > a.len() {
            Some((adjacent, b))
        } else {
            Some((standard, a))
        },
        (Some(a), None) => Some((standard, a)),
        (None, Some(b)) => Some((adjacent, b)),
        (None, None) => None,
    }
}

/// The table of a header at an offset: its entries stand where the header says,
/// or right behind it.
pub open spec fn table_of(data: Seq<u8>, offset: int, header: HeaderModel, block_size: int) -> Result<
    TableModel,
    GptError,
> {
    let standard = header.partition_entry_lba * block_size;
    let adjacent = offset + block_size;
    if standard > u64::MAX || adjacent > u64::MAX {
        Err(GptError::EntryOffset)
    } else {
        match best_array(data, standard, adjacent, header) {
            None => Err(GptError::EntryArray),
            Some((entries, partitions)) => Ok(
                TableModel {
                    image_offset: offset,
                    entry_array_offset: entries,
                    block_size,
                    header,
                    partitions,
                },
            ),
        }
    }
}

fn read_table(data: &[u8], offset: u64, header: GptHeader, block_size: u64) -> (table: Result<
    GptTable,
    GptError,
>)
    requires
        is_header(header@),
    ensures
        match table {
            Ok(found) => table_of(data@, offset as int, header@, block_size as int) == Ok::<
                TableModel,
                GptError,
            >(found@),
            Err(error) => table_of(data@, offset as int, header@, block_size as int) == Err::<
                TableModel,
                GptError,
            >(error),
        },
{
    let standard: u64 = match header.partition_entry_lba.checked_mul(block_size) {
        Some(standard) => standard,
        None => {
            return Err(GptError::EntryOffset);
        },
    };
    let adjacent: u64 = match offset.checked_add(block_size) {
        Some(adjacent) => adjacent,
        None => {
            return Err(GptError::EntryOffset);
        },
    };
    let first = parse_partitions_in(data, standard, &header);
    let second = parse_partitions_in(data, adjacent, &header);
    let ghost wanted = best_array(data@, standard as int, adjacent as int, header@);
    match (first, second) {
        (Some(a), Some(b)) => {
            if b.len() > a.len() {
                Ok(
                    GptTable {
                        image_offset: offset,
                        entry_array_offset: adjacent,
                        block_size,
                        header,
                        partitions: b,
                    },
                )
            } else {
                Ok(
                    GptTable {
                        image_offset: offset,
                        entry_array_offset: standard,
                        block_size,
                        header,
                        partitions: a,
                    },
                )
            }
        },
        (Some(a), None) => Ok(
            GptTable {
                image_offset: offset,
                entry_array_offset: standard,
                block_size,
                header,
                partitions: a,
            },
        ),
        (None, Some(b)) => Ok(
            GptTable {
                image_offset: offset,
                entry_array_offset: adjacent,
                block_size,
                header,
                partitions: b,
            },
        ),
        (None, None) => Err(GptError::EntryArray),
    }
}

/// The offsets from `from` on, a block apart, at which headers may stand within
/// the first `limit` bytes.
pub open spec fn header_offsets(data: Seq<u8>, limit: int, from: int) -> Seq<int>
    decreases limit - from + 512,
{
    if from + 8 > limit {
        seq![]
    } else if signed_at(data, from) {
        seq![from] + header_offsets(data, limit, from + 512)
    } else {
        header_offsets(data, limit, from + 512)
    }
}

/// How much of the data is searched.
pub open spec fn scanned(data: Seq<u8>, limit: int) -> int {
    if data.len() < limit {
        data.len() as int
    } else {
        limit
    }
}

fn find_headers(data: &[u8], limit: usize) -> (offsets: Vec<u64>)
    requires
        limit <= 0x1000_0000,
    ensures
        offsets@.map_values(|o: u64| o as int) == header_offsets(
            data@,
            scanned(data@, limit as int),
            GPT_HEADER_OFFSET as int,
        ),
{
    let end: usize = if data.len() < limit {
        data.len()
    } else {
        limit
    };
    let ghost all = header_offsets(data@, end as int, 512);
    let mut offsets: Vec<u64> = Vec::new();
    let mut at: usize = 512;
    assert(offsets@.map_values(|o: u64| o as int) + all =~= all);
    while at + 8 <= end
        invariant
            end <= 0x1000_0000,
            at <= end + 512,
            offsets@.map_values(|o: u64| o as int) + header_offsets(data@, end as int, at as int)
                == all,
        decreases end + 512 - at,
    {
        let ghost before = offsets@.map_values(|o: u64| o as int);
        if is_signed(data, at) {
            offsets.push(at as u64);
            assert(offsets@.map_values(|o: u64| o as int) =~= before.push(at as int));
            assert(before + (seq![at as int] + header_offsets(data@, end as int, at + 512))
                =~= before.push(at as int) + header_offsets(data@, end as int, at + 512));
        }
        at += 512;
    }
    assert(offsets@.map_values(|o: u64| o as int) =~= all);
    offsets
}

/// The first offset at which a header may stand at the head of a storage.
pub open spec fn storage_header(head: Seq<u8>) -> Option<int> {
    let all = header_offsets(
        head,
        scanned(head, STORAGE_HEAD_SCAN_LIMIT as int),
        GPT_HEADER_OFFSET as int,
    );
    if all.len() == 0 {
        None
    } else {
        Some(all[0])
    }
}

pub fn find_storage_header_offset(head: &[u8]) -> (offset: Option<u64>)
    ensures
        match offset {
            Some(found) => storage_header(head@) == Some(found as int),
            None => storage_header(head@) is None,
        },
{
    let offsets = find_headers(head, STORAGE_HEAD_SCAN_LIMIT);
    if offsets.len() == 0 {
        assert(offsets@.map_values(|o: u64| o as int).len() == 0);
        None
    } else {
        assert(offsets@.map_values(|o: u64| o as int)[0] == offsets@[0]);
        Some(offsets[0])
    }
}

/// True when data is the head of a storage whose blocks are not those of an
/// image.
pub fn looks_like_storage_head(head: &[u8]) -> (looks: bool)
    ensures
        looks == (head@.len() >= LOGICAL_BLOCK_SIZE + GPT_HEADER_SIZE && storage_header(
            head@,
        ) is Some && storage_header(head@) != Some(GPT_HEADER_OFFSET as int)),
{
    if head.len() < 512 + 92 {
        return false;
    }
    match find_storage_header_offset(head) {
        Some(offset) => offset != GPT_HEADER_OFFSET,
        None => false,
    }
}

/// The table at the head of a storage. Where its header stands tells how large
/// a block is.
pub open spec fn storage_table(head: Seq<u8>) -> Result<TableModel, GptError> {
    if head.len() < LOGICAL_BLOCK_SIZE + GPT_HEADER_SIZE {
        Err(GptError::TooSmall)
    } else {
        match storage_header(head) {
            None => Err(GptError::MissingSignature),
            Some(offset) => match header_of(head.skip(offset)) {
                Err(error) => Err(error),
                Ok(header) => {
                    let lba = if header.current_lba < 1 {
                        1
                    } else {
                        header.current_lba
                    };
                    let block_size = offset / lba;
                    if !(LOGICAL_BLOCK_SIZE <= block_size <= MAX_LOGICAL_BLOCK_SIZE) {
                        Err(GptError::BlockSize)
                    } else {
                        table_of(head, offset, header, block_size)
                    }
                },
            },
        }
    }
}

proof fn lemma_first_offset(data: Seq<u8>, limit: int, from: int)
    requires
        from >= 0,
    ensures
        forall|i: int|
            0 <= i < header_offsets(data, limit, from).len() ==> from <= #[trigger] header_offsets(
                data,
                limit,
                from,
            )[i] && header_offsets(data, limit, from)[i] + 8 <= limit,
    decreases limit - from + 512,
{
    if from + 8 <= limit {
        lemma_first_offset(data, limit, from + 512);
        let rest = header_offsets(data, limit, from + 512);
        let all = header_offsets(data, limit, from);
        assert forall|i: int| 0 <= i < all.len() implies from <= #[trigger] all[i] && all[i] + 8
            <= limit by {
            if signed_at(data, from) {
                if i > 0 {
                    assert(all[i] == rest[i - 1]);
                }
            } else {
                assert(all[i] == rest[i]);
            }
        }
    }
}

/// Parses the table at the head of a storage.
pub fn parse_storage_head(head: &[u8]) -> (info: Result<GptInfo, GptError>)
    ensures
        match info {
            Ok(found) => storage_table(head@) is Ok && table_models(found.tables@) == seq![
                storage_table(head@)->Ok_0,
            ],
            Err(error) => storage_table(head@) == Err::<TableModel, GptError>(error),
        },
{
    if head.len() < 512 + 92 {
        return Err(GptError::TooSmall);
    }
    let offset: u64 = match find_storage_header_offset(head) {
        Some(offset) => offset,
        None => {
            return Err(GptError::MissingSignature);
        },
    };
    proof {
        lemma_first_offset(head@, scanned(head@, STORAGE_HEAD_SCAN_LIMIT as int), 512);
    }
    let rest = &head[offset as usize..head.len()];
    assert(rest@ =~= head@.skip(offset as int));
    let header = match parse_header_bytes(rest) {
        Ok(header) => header,
        Err(error) => {
            return Err(error);
        },
    };
    let lba: u64 = if header.current_lba < 1 {
        1
    } else {
        header.current_lba
    };
    let block_size: u64 = offset / lba;
    if block_size < LOGICAL_BLOCK_SIZE || block_size > MAX_LOGICAL_BLOCK_SIZE {
        return Err(GptError::BlockSize);
    }
    match read_table(head, offset, header, block_size) {
        Ok(table) => {
            let mut tables: Vec<GptTable> = Vec::new();
            tables.push(table);
            assert(table_models(tables@) =~= seq![table@]);
            Ok(GptInfo { tables })
        },
        Err(error) => Err(error),
    }
}

/// The size of a block of an image: where the header says that it stands in the
/// first block, that tells the size, if it is a possible one.
pub open spec fn image_block_size(header: HeaderModel, offset: int) -> int {
    if header.current_lba == 1 && LOGICAL_BLOCK_SIZE <= offset <= MAX_LOGICAL_BLOCK_SIZE && offset
        % 512 == 0 {
        offset
    } else {
        LOGICAL_BLOCK_SIZE as int
    }
}

fn infer_image_block_size(header: &GptHeader, offset: u64) -> (size: u64)
    ensures
        size == image_block_size(header@, offset as int),
{
    if header.current_lba == 1 && offset >= LOGICAL_BLOCK_SIZE && offset <= MAX_LOGICAL_BLOCK_SIZE
        && offset % 512 == 0 {
        offset
    } else {
        LOGICAL_BLOCK_SIZE
    }
}

/// The table at an offset of an image.
#[verifier::opaque]
pub open spec fn table_at(image: Seq<u8>, offset: int) -> Result<TableModel, GptError> {
    match header_of(image.skip(offset)) {
        Err(error) => Err(error),
        Ok(header) => table_of(image, offset, header, image_block_size(header, offset)),
    }
}

/// The tables of the first `n` offsets, those with partitions and those without.
/// One that cannot be read is passed over, but not the one at its own place, nor
/// one whose entries lie nowhere.
pub open spec fn tables_at(image: Seq<u8>, offsets: Seq<int>, n: int) -> Result<
    (Seq<TableModel>, Seq<TableModel>),
    GptError,
>
    decreases n,
{
    if n <= 0 {
        Ok((seq![], seq![]))
    } else {
        match tables_at(image, offsets, n - 1) {
            Err(error) => Err(error),
            Ok((full, empty)) => match table_at(image, offsets[n - 1]) {
                Err(error) => if offsets[n - 1] == GPT_HEADER_OFFSET || error
                    == GptError::EntryOffset {
                    Err(error)
                } else {
                    Ok((full, empty))
                },
                Ok(table) => if table.partitions.len() == 0 {
                    Ok((full, empty.push(table)))
                } else {
                    Ok((full.push(table), empty))
                },
            },
        }
    }
}

/// The tables of an image: those with partitions, or else the first one.
pub open spec fn image_tables(image: Seq<u8>) -> Result<Seq<TableModel>, GptError> {
    let offsets = header_offsets(
        image,
        scanned(image, PTABLE_SCAN_LIMIT as int),
        GPT_HEADER_OFFSET as int,
    );
    if image.len() < GPT_HEADER_OFFSET + GPT_HEADER_SIZE {
        Err(GptError::TooSmall)
    } else if offsets.len() == 0 {
        Err(GptError::MissingSignature)
    } else {
        match tables_at(image, offsets, offsets.len() as int) {
            Err(error) => Err(error),
            Ok((full, empty)) => if full.len() == 0 && empty.len() > 0 {
                Ok(seq![empty[0]])
            } else {
                Ok(full)
            },
        }
    }
}

proof fn lemma_tables_fail(image: Seq<u8>, offsets: Seq<int>, n: int, m: int)
    requires
        0 <= n <= m,
        tables_at(image, offsets, n) is Err,
    ensures
        tables_at(image, offsets, m) == tables_at(image, offsets, n),
    decreases m,
{
    if n < m {
        lemma_tables_fail(image, offsets, n, m - 1);
    }
}

fn read_image_table(image: &[u8], offset: u64) -> (table: Result<GptTable, GptError>)
    requires
        offset <= image@.len(),
    ensures
        match table {
            Ok(found) => table_at(image@, offset as int) == Ok::<TableModel, GptError>(found@),
            Err(error) => table_at(image@, offset as int) == Err::<TableModel, GptError>(error),
        },
{
    reveal(table_at);
    let rest = &image[offset as usize..image.len()];
    assert(rest@ =~= image@.skip(offset as int));
    let header = match parse_header_bytes(rest) {
        Ok(header) => header,
        Err(error) => {
            return Err(error);
        },
    };
    let block_size: u64 = infer_image_block_size(&header, offset);
    read_table(image, offset, header, block_size)
}

/// Parses the tables of an image.
pub fn parse_image(image: &[u8]) -> (info: Result<GptInfo, GptError>)
    ensures
        match info {
            Ok(found) => image_tables(image@) == Ok::<Seq<TableModel>, GptError>(
                table_models(found.tables@),
            ),
            Err(error) => image_tables(image@) == Err::<Seq<TableModel>, GptError>(error),
        },
{
    if image.len() < 512 + 92 {
        return Err(GptError::TooSmall);
    }
    let offsets = find_headers(image, PTABLE_SCAN_LIMIT);
    let ghost all = offsets@.map_values(|o: u64| o as int);
    assert(all.len() == offsets@.len());
    if offsets.len() == 0 {
        return Err(GptError::MissingSignature);
    }
    proof {
        lemma_first_offset(image@, scanned(image@, PTABLE_SCAN_LIMIT as int), 512);
    }
    let mut full: Vec<GptTable> = Vec::new();
    let mut empty: Vec<GptTable> = Vec::new();
    let mut n: usize = 0;
    assert(table_models(full@) =~= Seq::<TableModel>::empty());
    while n < offsets.len()
        invariant
            n <= offsets@.len(),
            image@.len() >= 604,
            offsets@.len() > 0,
            all == offsets@.map_values(|o: u64| o as int),
            all == header_offsets(
                image@,
                scanned(image@, PTABLE_SCAN_LIMIT as int),
                GPT_HEADER_OFFSET as int,
            ),
            forall|i: int| 0 <= i < all.len() ==> 512 <= (#[trigger] all[i]) <= image@.len(),
            tables_at(image@, all, n as int) == Ok::<
                (Seq<TableModel>, Seq<TableModel>),
                GptError,
            >((table_models(full@), table_models(empty@))),
        decreases offsets@.len() - n,
    {
        let offset: u64 = offsets[n];
        assert(all[n as int] == offset);
        match read_image_table(image, offset) {
            Ok(table) => {
                let ghost model = table@;
                if table.partitions.len() == 0 {
                    let ghost before = table_models(empty@);
                    empty.push(table);
                    assert(table_models(empty@) =~= before.push(model));
                } else {
                    let ghost before = table_models(full@);
                    full.push(table);
                    assert(table_models(full@) =~= before.push(model));
                }
            },
            Err(error) => {
                if offset == GPT_HEADER_OFFSET || error == GptError::EntryOffset {
                    proof {
                        lemma_tables_fail(image@, all, n + 1, all.len() as int);
                    }
                    return Err(error);
                }
            },
        }
        n += 1;
    }
    assert(table_models(full@).len() == full@.len());
    assert(table_models(empty@).len() == empty@.len());
    if full.len() == 0 && empty.len() > 0 {
        let ghost first = table_models(empty@)[0];
        let table = empty.remove(0);
        assert(table@ == first);
        full.push(table);
        assert(table_models(full@) =~= seq![first]);
    }
    Ok(GptInfo { tables: full })
}

// ---------------------------------------------------------------------------
// What a table says
// ---------------------------------------------------------------------------

/// A header has at least 92 bytes, starts with `EFI PART`, and states its size at
/// 12, the number of its entries at 80 and their size at 84, each within its
/// limits. The other numbers stand at their places, and the identifier of the disk
/// is that of the bytes from 56 on.
pub proof fn law_headers_are_read(b: Seq<u8>)
    ensures
        header_of(b) is Ok <==> {
            &&& b.len() >= 92
            &&& b[0] == 0x45 && b[1] == 0x46 && b[2] == 0x49 && b[3] == 0x20
            &&& b[4] == 0x50 && b[5] == 0x41 && b[6] == 0x52 && b[7] == 0x54
            &&& 92 <= bytes::le32(b, 12) <= 16384
            &&& bytes::le32(b, 80) <= 16384
            &&& 128 <= bytes::le32(b, 84) <= 4096
        },
        header_of(b) matches Ok(h) ==> {
            &&& h.revision == bytes::le32(b, 8) && h.header_size == bytes::le32(b, 12)
            &&& h.current_lba == bytes::le64(b, 24) && h.backup_lba == bytes::le64(b, 32)
            &&& h.first_usable_lba == bytes::le64(b, 40) && h.last_usable_lba == bytes::le64(b, 48)
            &&& h.disk_guid == guid_text(b.subrange(56, 72))
            &&& h.partition_entry_lba == bytes::le64(b, 72)
            &&& h.partition_entry_count == bytes::le32(b, 80)
            &&& h.partition_entry_size == bytes::le32(b, 84)
        },
        b.len() < 92 ==> header_of(b) == Err::<HeaderModel, GptError>(GptError::TooSmall),
        header_of(b) == Err::<HeaderModel, GptError>(GptError::EntryCount) ==> bytes::le32(b, 80)
            > 16384,
        header_of(b) == Err::<HeaderModel, GptError>(GptError::EntrySize) ==> !(128 <= bytes::le32(
            b,
            84,
        ) <= 4096),
        header_of(b) == Err::<HeaderModel, GptError>(GptError::HeaderSize) ==> !(92 <= bytes::le32(
            b,
            12,
        ) <= 16384),
{
    reveal(header_of);
    lemma_signed(b, 0);
}

proof fn lemma_signed(data: Seq<u8>, at: int)
    requires
        at >= 0,
    ensures
        signed_at(data, at) <==> {
            &&& at + 8 <= data.len()
            &&& data[at] == 0x45 && data[at + 1] == 0x46 && data[at + 2] == 0x49
            &&& data[at + 3] == 0x20 && data[at + 4] == 0x50 && data[at + 5] == 0x41
            &&& data[at + 6] == 0x52 && data[at + 7] == 0x54
        },
{
    if at + 8 <= data.len() {
        let part = data.subrange(at, at + 8);
        assert(part[0] == data[at] && part[1] == data[at + 1] && part[2] == data[at + 2]);
        assert(part[3] == data[at + 3] && part[4] == data[at + 4] && part[5] == data[at + 5]);
        assert(part[6] == data[at + 6] && part[7] == data[at + 7]);
        let wanted = signature();
        assert(wanted[0] == 0x45 && wanted[1] == 0x46 && wanted[2] == 0x49 && wanted[3] == 0x20);
        assert(wanted[4] == 0x50 && wanted[5] == 0x41 && wanted[6] == 0x52 && wanted[7] == 0x54);
        if part[0] == 0x45 && part[1] == 0x46 && part[2] == 0x49 && part[3] == 0x20 && part[4]
            == 0x50 && part[5] == 0x41 && part[6] == 0x52 && part[7] == 0x54 {
            assert(part =~= wanted);
        }
    }
}

/// An entry is a partition where one of its first sixteen bytes, which are its
/// type, is not zero, and where its last block, at 40, is not before its first one,
/// at 32. Its identifier stands at 16, its attributes at 48 and its name at 56.
pub proof fn law_entries_are_partitions(b: Seq<u8>, index: int)
    requires
        b.len() >= 128,
    ensures
        partition_of(b, index) is Some <==> {
            &&& exists|i: int| 0 <= i < 16 && #[trigger] b[i] != 0
            &&& bytes::le64(b, 32) <= bytes::le64(b, 40)
        },
        partition_of(b, index) matches Some(p) ==> {
            &&& p.index == index
            &&& p.type_guid == guid_text(b.subrange(0, 16))
            &&& p.unique_guid == guid_text(b.subrange(16, 32))
            &&& p.first_lba == bytes::le64(b, 32)
            &&& p.last_lba == bytes::le64(b, 40)
            &&& p.attributes == bytes::le64(b, 48)
            &&& p.name == utf16(name_units(b.subrange(56, 128), 0))
        },
{
    reveal(partition_of);
    let part = b.take(16);
    assert(part =~= b.subrange(0, 16));
    assert(forall|i: int| 0 <= i < 16 ==> #[trigger] part[i] == b[i]);
    if exists|i: int| 0 <= i < 16 && #[trigger] b[i] != 0 {
        let i = choose|i: int| 0 <= i < 16 && #[trigger] b[i] != 0;
        assert(part[i] != 0);
    }
}

/// True when the characters at `at` are the two digits of a byte, written with
/// large letters.
pub open spec fn shows(s: Seq<char>, at: int, b: u8) -> bool {
    &&& text::digit_value(s[at]) == Some((b / 16) as nat)
    &&& text::digit_value(s[at + 1]) == Some((b % 16) as nat)
    &&& !('a' <= s[at] <= 'f') && !('a' <= s[at + 1] <= 'f')
}

/// An identifier is written in 36 characters: dashes at 8, 13, 18 and 23, and the
/// digits of its bytes between them, those of the first three parts from their last
/// byte to their first.
#[verifier::rlimit(60)]
#[verifier::spinoff_prover]
pub proof fn law_identifiers_are_written(b: Seq<u8>)
    requires
        b.len() == 16,
    ensures
        ({
            let s = guid_text(b);
            &&& s.len() == 36
            &&& s[8] == '-' && s[13] == '-' && s[18] == '-' && s[23] == '-'
            &&& shows(s, 0, b[3]) && shows(s, 2, b[2]) && shows(s, 4, b[1]) && shows(s, 6, b[0])
            &&& shows(s, 9, b[5]) && shows(s, 11, b[4])
            &&& shows(s, 14, b[7]) && shows(s, 16, b[6])
            &&& shows(s, 19, b[8]) && shows(s, 21, b[9])
            &&& shows(s, 24, b[10]) && shows(s, 26, b[11]) && shows(s, 28, b[12])
            &&& shows(s, 30, b[13]) && shows(s, 32, b[14]) && shows(s, 34, b[15])
        }),
{
    assert forall|i: int| 0 <= i < 16 implies shows(byte_digits(#[trigger] b[i]), 0, b[i]) by {
        lemma_digits(b[i]);
    }
}

proof fn lemma_digits(b: u8)
    ensures
        byte_digits(b).len() == 2,
        shows(byte_digits(b), 0, b),
{
    let high = large_digit(b as int / 16);
    let low = large_digit(b as int % 16);
    assert(byte_digits(b)[0] == high && byte_digits(b)[1] == low);
}

/// A text in UTF-16: characters of the first plane are one code unit, the others
/// two.
pub open spec fn in_utf16(s: Seq<char>) -> Seq<int>
    decreases s.len(),
{
    if s.len() == 0 {
        seq![]
    } else {
        let code = s[0] as int;
        let rest = in_utf16(s.skip(1));
        if code < 0x1_0000 {
            seq![code] + rest
        } else {
            seq![0xd800 + (code - 0x1_0000) / 0x400, 0xdc00 + (code - 0x1_0000) % 0x400] + rest
        }
    }
}

proof fn lemma_code(c: char)
    ensures
        (c as int) as char == c,
        0 <= c as int <= 0x10ffff,
        !(0xd800 <= c as int <= 0xdfff),
{
}

/// Reading a text in UTF-16 gives the text.
pub proof fn law_utf16_reads_back(s: Seq<char>)
    ensures
        utf16(in_utf16(s)) == s,
    decreases s.len(),
{
    if s.len() > 0 {
        law_utf16_reads_back(s.skip(1));
        lemma_code(s[0]);
        let code = s[0] as int;
        let units = in_utf16(s);
        let rest = in_utf16(s.skip(1));
        if code < 0x1_0000 {
            assert(units.skip(1) =~= rest);
        } else {
            assert(units.skip(2) =~= rest);
            assert((0x1_0000 + (units[0] - 0xd800) * 0x400 + (units[1] - 0xdc00)) == code);
        }
        assert(seq![s[0]] + s.skip(1) =~= s);
    } else {
        assert(utf16(in_utf16(s)) =~= s);
    }
}

/// A surrogate without its partner is shown as the replacement character.
pub proof fn law_lone_surrogates_are_replaced(units: Seq<int>)
    requires
        units.len() > 0,
        0xdc00 <= units[0] <= 0xdfff || (0xd800 <= units[0] <= 0xdbff && (units.len() == 1 || !(
        0xdc00 <= units[1] <= 0xdfff))),
    ensures
        utf16(units) == seq!['\u{fffd}'] + utf16(units.skip(1)),
{
}

/// The code units of a name are pairs of bytes, the lower one first, up to the
/// first pair of zeros or to the end.
pub proof fn law_names_end_at_a_zero(b: Seq<u8>, from: int)
    requires
        0 <= from <= b.len(),
    ensures
        ({
            let units = name_units(b, from);
            let after = from + 2 * units.len();
            &&& after <= b.len()
            &&& forall|i: int|
                0 <= i < units.len() ==> #[trigger] units[i] != 0 && units[i] == b[from + 2 * i]
                    + 256 * b[from + 2 * i + 1]
            &&& after + 2 <= b.len() ==> b[after] == 0 && b[after + 1] == 0
        }),
    decreases b.len() - from,
{
    let units = name_units(b, from);
    if from + 2 <= b.len() {
        bytes::law_numbers_start_with_their_lowest_byte(b, from);
        if bytes::le16(b, from) != 0 {
            let rest = name_units(b, from + 2);
            law_names_end_at_a_zero(b, from + 2);
            assert forall|i: int| 0 <= i < units.len() implies #[trigger] units[i] != 0 && units[i]
                == b[from + 2 * i] + 256 * b[from + 2 * i + 1] by {
                if i > 0 {
                    assert(units[i] == rest[i - 1]);
                }
            }
        }
    }
}

/// The partitions of an array are those of its used entries, each once, in their
/// order: every one is read from the entry of its index, `size` bytes apart.
pub proof fn law_arrays_hold_their_partitions(data: Seq<u8>, offset: int, size: int, n: int)
    requires
        n >= 0,
    ensures
        ({
            let all = partitions_at(data, offset, size, n);
            &&& forall|k: int|
                0 <= k < all.len() ==> {
                    let p = #[trigger] all[k];
                    let start = offset + p.index * size;
                    0 <= p.index < n && partition_of(data.subrange(start, start + size), p.index)
                        == Some(p)
                }
            &&& forall|j: int, k: int|
                0 <= j < k < all.len() ==> (#[trigger] all[j]).index < (#[trigger] all[k]).index
            &&& forall|i: int|
                0 <= i < n && (#[trigger] partition_of(entry_at(data, offset, size, i), i)) is Some
                    ==> exists|k: int| 0 <= k < all.len() && (#[trigger] all[k]).index == i
        }),
    decreases n,
{
    if n > 0 {
        let all = partitions_at(data, offset, size, n);
        let before = partitions_at(data, offset, size, n - 1);
        law_arrays_hold_their_partitions(data, offset, size, n - 1);
        lemma_index(entry_at(data, offset, size, n - 1), n - 1);
        assert forall|i: int|
            0 <= i < n && (#[trigger] partition_of(
                entry_at(data, offset, size, i),
                i,
            )) is Some implies exists|k: int| 0 <= k < all.len() && (#[trigger] all[k]).index == i by {
            if i < n - 1 {
                let k = choose|k: int| 0 <= k < before.len() && (#[trigger] before[k]).index == i;
                assert(all[k] == before[k]);
            } else {
                assert(all[all.len() - 1].index == i);
            }
        }
        assert forall|k: int| 0 <= k < all.len() implies {
            let p = #[trigger] all[k];
            let start = offset + p.index * size;
            0 <= p.index < n && partition_of(data.subrange(start, start + size), p.index) == Some(p)
        } by {
            if k < before.len() {
                assert(all[k] == before[k]);
            }
        }
        assert forall|j: int, k: int| 0 <= j < k < all.len() implies (#[trigger] all[j]).index < (
        #[trigger] all[k]).index by {
            assert(all[j] == before[j]);
            if k < before.len() {
                assert(all[k] == before[k]);
            }
        }
    }
}

proof fn lemma_index(b: Seq<u8>, index: int)
    ensures
        partition_of(b, index) matches Some(p) ==> p.index == index,
{
    reveal(partition_of);
}

/// The entries of a table stand where its header says, or in the block behind the
/// header: where both places lie within the data, at the one that holds more
/// partitions, and at the first where they hold as many.
pub proof fn law_entries_stand_where_more_are(
    data: Seq<u8>,
    offset: int,
    header: HeaderModel,
    block_size: int,
)
    ensures
        table_of(data, offset, header, block_size) matches Ok(t) ==> {
            let standard = header.partition_entry_lba * block_size;
            let adjacent = offset + block_size;
            let length = header.partition_entry_count * header.partition_entry_size;
            let held = |at: int|
                partitions_at(
                    data,
                    at,
                    header.partition_entry_size,
                    header.partition_entry_count,
                );
            &&& t.image_offset == offset && t.block_size == block_size && t.header == header
            &&& t.entry_array_offset == standard || t.entry_array_offset == adjacent
            &&& t.entry_array_offset + length <= data.len()
            &&& t.partitions == held(t.entry_array_offset)
            &&& standard + length <= data.len() ==> t.partitions.len() >= held(standard).len()
            &&& adjacent + length <= data.len() ==> t.partitions.len() >= held(adjacent).len()
            &&& standard + length <= data.len() && held(standard).len() == t.partitions.len()
                ==> t.entry_array_offset == standard
        },
        table_of(data, offset, header, block_size) == Err::<TableModel, GptError>(
            GptError::EntryArray,
        ) ==> {
            let length = header.partition_entry_count * header.partition_entry_size;
            &&& header.partition_entry_lba * block_size + length > data.len()
            &&& offset + block_size + length > data.len()
        },
{
}

/// Headers are looked for every 512 bytes from the second 512 on: found is each
/// such place within the limit that has the eight bytes of `EFI PART`, in order.
pub proof fn law_headers_are_found(data: Seq<u8>, limit: int, from: int)
    requires
        from >= 0,
        from % 512 == 0,
        limit <= data.len(),
    ensures
        ({
            let all = header_offsets(data, limit, from);
            &&& forall|at: int| #[trigger]
                all.contains(at) <==> from <= at && at + 8 <= limit && at % 512 == 0 && {
                    &&& data[at] == 0x45 && data[at + 1] == 0x46 && data[at + 2] == 0x49
                    &&& data[at + 3] == 0x20 && data[at + 4] == 0x50 && data[at + 5] == 0x41
                    &&& data[at + 6] == 0x52 && data[at + 7] == 0x54
                }
            &&& forall|i: int, j: int|
                0 <= i < j < all.len() ==> #[trigger] all[i] < #[trigger] all[j]
        }),
    decreases limit - from + 512,
{
    let all = header_offsets(data, limit, from);
    if from + 8 <= limit {
        let rest = header_offsets(data, limit, from + 512);
        law_headers_are_found(data, limit, from + 512);
        lemma_first_offset(data, limit, from + 512);
        lemma_signed(data, from);
        assert forall|at: int| #[trigger]
            all.contains(at) <==> from <= at && at + 8 <= limit && at % 512 == 0 && {
                &&& data[at] == 0x45 && data[at + 1] == 0x46 && data[at + 2] == 0x49
                &&& data[at + 3] == 0x20 && data[at + 4] == 0x50 && data[at + 5] == 0x41
                &&& data[at + 6] == 0x52 && data[at + 7] == 0x54
            } by {
            assert(rest.contains(at) == (from + 512 <= at && at + 8 <= limit && at % 512 == 0 && {
                &&& data[at] == 0x45 && data[at + 1] == 0x46 && data[at + 2] == 0x49
                &&& data[at + 3] == 0x20 && data[at + 4] == 0x50 && data[at + 5] == 0x41
                &&& data[at + 6] == 0x52 && data[at + 7] == 0x54
            }));
            if signed_at(data, from) {
                assert(all[0] == from);
                if rest.contains(at) {
                    let i = choose|i: int| 0 <= i < rest.len() && rest[i] == at;
                    assert(all[i + 1] == at);
                }
                if all.contains(at) && at != from {
                    let i = choose|i: int| 0 <= i < all.len() && all[i] == at;
                    assert(rest[i - 1] == at);
                }
            }
        }
        assert forall|i: int, j: int| 0 <= i < j < all.len() implies #[trigger] all[i]
            < #[trigger] all[j] by {
            if signed_at(data, from) {
                assert(all[j] == rest[j - 1]);
                if i > 0 {
                    assert(all[i] == rest[i - 1]);
                }
            }
        }
    }
}

/// A storage whose table can be read has it at the first place that looks like a
/// header within its first mebibyte; the block is as large as that place divided by
/// the number of the header's block, between 512 and 16384 bytes.
pub proof fn law_storage_blocks_are_measured(head: Seq<u8>)
    ensures
        storage_table(head) matches Ok(t) ==> {
            let limit = if head.len() < 0x10_0000 {
                head.len() as int
            } else {
                0x10_0000
            };
            let found = header_offsets(head, limit, 512);
            &&& head.len() >= 604
            &&& found.len() > 0 && t.image_offset == found[0]
            &&& header_of(head.skip(t.image_offset)) == Ok::<HeaderModel, GptError>(t.header)
            &&& t.header.current_lba > 0 ==> t.block_size == t.image_offset / t.header.current_lba
            &&& t.header.current_lba == 0 ==> t.block_size == t.image_offset
            &&& 512 <= t.block_size <= 16384
            &&& table_of(head, t.image_offset, t.header, t.block_size) == Ok::<TableModel, GptError>(t)
        },
{
    if storage_table(head) is Ok {
        let offset = storage_header(head)->0;
        let header = header_of(head.skip(offset))->Ok_0;
        reveal(header_of);
        assert(header.current_lba >= 0);
        if header.current_lba == 0 {
            assert(offset / 1 == offset);
        }
    }
}

/// The tables of an image are read at places that look like headers within its
/// first 16 MiB; every one of them that has partitions is among them, in order, and
/// one without is only where none has.
pub proof fn law_images_hold_their_tables(image: Seq<u8>)
    requires
        image_tables(image) is Ok,
    ensures
        ({
            let limit = if image.len() < 0x100_0000 {
                image.len() as int
            } else {
                0x100_0000
            };
            let places = header_offsets(image, limit, 512);
            let tables = image_tables(image)->Ok_0;
            &&& forall|k: int|
                0 <= k < tables.len() ==> places.contains((#[trigger] tables[k]).image_offset)
                    && table_at(image, tables[k].image_offset) == Ok::<TableModel, GptError>(tables[k])
            &&& forall|i: int|
                0 <= i < places.len() ==> (#[trigger] table_at(image, places[i]) matches Ok(t)
                    ==> t.partitions.len() > 0 ==> tables.contains(t))
            &&& (exists|k: int| 0 <= k < tables.len() && (#[trigger] tables[k]).partitions.len() == 0)
                ==> tables.len() == 1 && forall|i: int|
                0 <= i < places.len() ==> (#[trigger] table_at(image, places[i]) matches Ok(t)
                    ==> t.partitions.len() == 0)
        }),
{
    let limit = scanned(image, 0x100_0000);
    let places = header_offsets(image, limit, 512);
    let n = places.len() as int;
    lemma_tables(image, places, n);
    let (full, empty) = tables_at(image, places, n)->Ok_0;
    let tables = image_tables(image)->Ok_0;
    if full.len() == 0 && empty.len() > 0 {
        assert(tables[0] == empty[0]);
    }
}

proof fn lemma_tables(image: Seq<u8>, places: Seq<int>, n: int)
    requires
        0 <= n <= places.len(),
        tables_at(image, places, n) is Ok,
    ensures
        ({
            let (full, empty) = tables_at(image, places, n)->Ok_0;
            &&& forall|k: int|
                0 <= k < full.len() ==> places.contains((#[trigger] full[k]).image_offset)
                    && full[k].partitions.len() > 0 && table_at(image, full[k].image_offset) == Ok::<
                    TableModel,
                    GptError,
                >(full[k])
            &&& forall|k: int|
                0 <= k < empty.len() ==> places.contains((#[trigger] empty[k]).image_offset)
                    && empty[k].partitions.len() == 0 && table_at(image, empty[k].image_offset) == Ok::<
                    TableModel,
                    GptError,
                >(empty[k])
            &&& forall|i: int|
                0 <= i < n ==> (#[trigger] table_at(image, places[i]) matches Ok(t)
                    ==> t.partitions.len() > 0 ==> full.contains(t))
        }),
    decreases n,
{
    if n > 0 {
        lemma_tables(image, places, n - 1);
        let (full, empty) = tables_at(image, places, n - 1)->Ok_0;
        let (now, none) = tables_at(image, places, n)->Ok_0;
        lemma_table_place(image, places[n - 1]);
        assert forall|k: int| 0 <= k < now.len() implies places.contains(
            (#[trigger] now[k]).image_offset,
        ) && now[k].partitions.len() > 0 && table_at(image, now[k].image_offset) == Ok::<
            TableModel,
            GptError,
        >(now[k]) by {
            if k < full.len() {
                assert(now[k] == full[k]);
            }
        }
        assert forall|k: int| 0 <= k < none.len() implies places.contains(
            (#[trigger] none[k]).image_offset,
        ) && none[k].partitions.len() == 0 && table_at(image, none[k].image_offset) == Ok::<
            TableModel,
            GptError,
        >(none[k]) by {
            if k < empty.len() {
                assert(none[k] == empty[k]);
            }
        }
        assert forall|i: int| 0 <= i < n implies (#[trigger] table_at(image, places[i]) matches Ok(t)
            ==> t.partitions.len() > 0 ==> now.contains(t)) by {
            if let Ok(t) = table_at(image, places[i]) {
                if t.partitions.len() > 0 {
                    if i < n - 1 {
                        let k = choose|k: int| 0 <= k < full.len() && full[k] == t;
                        assert(now[k] == t);
                    } else {
                        assert(now[now.len() - 1] == t);
                    }
                }
            }
        }
    }
}

proof fn lemma_table_place(image: Seq<u8>, offset: int)
    ensures
        table_at(image, offset) matches Ok(t) ==> t.image_offset == offset,
{
    reveal(table_at);
}

/// The table of an image at a place has the header of that place. A header that
/// says it is the first block tells how large a block is; elsewhere a block has 512
/// bytes.
pub proof fn law_image_blocks_are_measured(image: Seq<u8>, offset: int)
    ensures
        table_at(image, offset) matches Ok(t) ==> {
            &&& header_of(image.skip(offset)) == Ok::<HeaderModel, GptError>(t.header)
            &&& table_of(image, offset, t.header, t.block_size) == Ok::<TableModel, GptError>(t)
            &&& t.header.current_lba == 1 && 512 <= offset <= 16384 && offset % 512 == 0
                ==> t.block_size == offset
            &&& t.header.current_lba != 1 || offset > 16384 ==> t.block_size == 512
        },
{
    reveal(table_at);
}

/// A partition reaches from its first block to its last one, both counted.
pub proof fn law_sectors_reach_to_the_last(p: GptPartition)
    ensures
        p.first_lba <= p.last_lba && p.last_lba - p.first_lba < u64::MAX ==> p.first_lba + p.sectors()
            == p.last_lba + 1,
        p.first_lba > p.last_lba ==> p.sectors() == 1,
{
}

/// The partitions of all tables are counted.
pub proof fn law_partitions_are_counted(tables: Seq<TableModel>, n: int)
    requires
        0 <= n < tables.len(),
    ensures
        partitions_in(tables, 0) == 0,
        partitions_in(tables, n + 1) == partitions_in(tables, n) + tables[n].partitions.len(),
{
}

} // verus!
