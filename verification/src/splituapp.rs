//! UPDATE.APP packages: images one behind the other, each with a header.
//!
//! The fixed part of a header is 98 bytes long, with its magic. What is left of
//! it are checksums of the data, which are kept but not checked.

use vstd::prelude::*;

use crate::bytes;
use crate::names;
use crate::text;

verus! {

pub const FIXED_HEADER_LEN: usize = 98;

pub const MAX_HEADER_LEN: u64 = 0x40_0000;

pub const MAX_METADATA_LEN: u64 = 0x400_0000;

pub const MAX_RECORDS: usize = 16384;

pub const MAX_SCAN_LEN: usize = 0x10_0000;

/// An image of a package.
#[derive(Debug)]
pub struct Record {
    pub name: String,
    pub output_name: String,
    pub index: usize,
    pub header_offset: u64,
    pub header_size: u64,
    pub data_offset: u64,
    pub size: u64,
    pub header: Vec<u8>,
    pub checksum: Vec<u8>,
}

#[verifier::ext_equal]
pub struct RecordModel {
    pub name: Seq<char>,
    pub output_name: Seq<char>,
    pub index: int,
    pub header_offset: int,
    pub header_size: int,
    pub data_offset: int,
    pub size: int,
    pub header: Seq<u8>,
    pub checksum: Seq<u8>,
}

impl View for Record {
    type V = RecordModel;

    open spec fn view(&self) -> RecordModel {
        RecordModel {
            name: self.name@,
            output_name: self.output_name@,
            index: self.index as int,
            header_offset: self.header_offset as int,
            header_size: self.header_size as int,
            data_offset: self.data_offset as int,
            size: self.size as int,
            header: self.header@,
            checksum: self.checksum@,
        }
    }
}

pub open spec fn record_models(list: Seq<Record>) -> Seq<RecordModel> {
    list.map_values(|r: Record| r@)
}

/// The images of a package.
#[derive(Debug)]
pub struct Index {
    pub records: Vec<Record>,
}

/// Why data is no package.
#[derive(Debug, Clone, Copy, PartialEq, Eq, Structural)]
pub enum PackageError {
    TruncatedMagic,
    NoMagic,
    TooManyRecords,
    TruncatedHeader,
    HeaderSize,
    MetadataSize,
    Truncated,
    UnsafeName,
    ReservedName,
    NoRecords,
    LengthMismatch,
    MissingImage,
    UnsafeEntry,
    SeveralPackages,
    NoPackage,
    StoredSize,
}

/// The bytes that a header starts with.
pub open spec fn magic() -> Seq<u8> {
    seq![0x55u8, 0xaa, 0x5a, 0xa5]
}

fn is_magic_at(data: &[u8], at: usize) -> (is: bool)
    ensures
        is == bytes::stands_at(data@, at as int, magic()),
{
    let mut wanted: Vec<u8> = Vec::new();
    wanted.push(0x55);
    wanted.push(0xaa);
    wanted.push(0x5a);
    wanted.push(0xa5);
    assert(wanted@ =~= magic());
    bytes::matches_at(data, at, wanted.as_slice())
}

/// True when a header may stand within the first part of the data.
pub open spec fn probes(data: Seq<u8>) -> bool {
    exists|i: int| 0 <= i <= MAX_SCAN_LEN / 4 && #[trigger] bytes::stands_at(data, 4 * i, magic())
}

/// Tells whether data may be a package, by its first part.
pub fn probe(data: &[u8]) -> (found: bool)
    ensures
        found == probes(data@),
{
    let mut i: usize = 0;
    while i <= MAX_SCAN_LEN / 4
        invariant
            i <= MAX_SCAN_LEN / 4 + 1,
            forall|k: int| 0 <= k < i ==> !#[trigger] bytes::stands_at(data@, 4 * k, magic()),
        decreases MAX_SCAN_LEN / 4 + 1 - i,
    {
        if is_magic_at(data, 4 * i) {
            assert(bytes::stands_at(data@, 4 * (i as int), magic()));
            return true;
        }
        i += 1;
    }
    false
}

// ---------------------------------------------------------------------------
// Names
// ---------------------------------------------------------------------------

/// True for the characters that a name may have.
pub open spec fn is_name_char(c: char) -> bool {
    &&& '!' <= c <= '~'
    &&& c != '<'
    &&& c != '>'
    &&& c != ':'
    &&& c != '"'
    &&& c != '|'
    &&& c != '?'
    &&& c != '*'
}

/// The part of a name before its first dot, with small letters.
pub open spec fn stem_of(name: Seq<char>) -> Seq<char> {
    text::lowered(text::split(name, '.')[0])
}

/// True for the names of devices, which no file can have on some systems.
pub open spec fn is_reserved(stem: Seq<char>) -> bool {
    ||| stem == "con"@
    ||| stem == "prn"@
    ||| stem == "aux"@
    ||| stem == "nul"@
    ||| stem.len() == 4 && (text::begins_with(stem, "com"@) || text::begins_with(stem, "lpt"@))
        && '1' <= stem[3] <= '9'
}

/// What is wrong with a name.
pub open spec fn name_error(name: Seq<char>) -> Option<PackageError> {
    if !(names::is_simple(name) && (forall|i: int|
        0 <= i < name.len() ==> is_name_char(#[trigger] name[i])) && name.last() != '.') {
        Some(PackageError::UnsafeName)
    } else if is_reserved(stem_of(name)) {
        Some(PackageError::ReservedName)
    } else {
        None
    }
}

fn name_char(c: char) -> (is: bool)
    ensures
        is == is_name_char(c),
{
    let low = c >= '!';
    let high = c <= '~';
    low && high && c != '<' && c != '>' && c != ':' && c != '"' && c != '|' && c != '?' && c != '*'
}

fn all_name_chars(name: &[char]) -> (are: bool)
    ensures
        are == (forall|i: int| 0 <= i < name@.len() ==> is_name_char(#[trigger] name@[i])),
{
    let mut i: usize = 0;
    while i < name.len()
        invariant
            i <= name@.len(),
            forall|k: int| 0 <= k < i ==> is_name_char(#[trigger] name@[k]),
        decreases name@.len() - i,
    {
        if !name_char(name[i]) {
            assert(!is_name_char(name@[i as int]));
            return false;
        }
        i += 1;
    }
    true
}

pub fn validate_name(name: &[char]) -> (valid: Result<(), PackageError>)
    ensures
        match valid {
            Ok(()) => name_error(name@) is None,
            Err(error) => name_error(name@) == Some(error),
        },
{
    if !names::is_simple_name(name) || !all_name_chars(name) || name[name.len() - 1] == '.' {
        return Err(PackageError::UnsafeName);
    }
    let parts = text::split_char(name, '.');
    assert(text::pieces(parts@)[0] == parts@[0]@);
    let stem = text::lower(parts[0].as_slice());
    let s = stem.as_slice();
    if text::is_text(s, "con") || text::is_text(s, "prn") || text::is_text(s, "aux")
        || text::is_text(s, "nul") {
        return Err(PackageError::ReservedName);
    }
    if s.len() == 4 && (text::starts(s, "com") || text::starts(s, "lpt")) {
        let digit = s[3];
        let low = digit >= '1';
        let high = digit <= '9';
        if low && high {
            return Err(PackageError::ReservedName);
        }
    }
    Ok(())
}

/// The file name of the image of a name that occurs for the time `number`.
pub open spec fn candidate(name: Seq<char>, number: int) -> Seq<char> {
    if number == 1 {
        name + ".img"@
    } else {
        name + "_"@ + text::decimal(number as nat) + ".img"@
    }
}

/// True when `number` is the next number of a name behind `previous` whose file
/// name is not taken.
pub open spec fn is_next_number(
    taken: Seq<Seq<char>>,
    name: Seq<char>,
    previous: int,
    number: int,
) -> bool {
    &&& number > previous
    &&& !taken.contains(candidate(name, number))
    &&& forall|k: int| previous < k < number ==> taken.contains(#[trigger] candidate(name, k))
}

/// The next number of a name.
pub open spec fn next_number(taken: Seq<Seq<char>>, name: Seq<char>, previous: int) -> int {
    choose|number: int| is_next_number(taken, name, previous, number)
}

proof fn lemma_next_number(taken: Seq<Seq<char>>, name: Seq<char>, previous: int, number: int)
    requires
        is_next_number(taken, name, previous, number),
    ensures
        next_number(taken, name, previous) == number,
{
    let other = next_number(taken, name, previous);
    assert(is_next_number(taken, name, previous, other));
    if other < number {
        assert(taken.contains(candidate(name, other)));
    }
    if number < other {
        assert(taken.contains(candidate(name, number)));
    }
}

proof fn lemma_candidates_differ(name: Seq<char>, a: int, b: int)
    requires
        1 <= a < b,
    ensures
        candidate(name, a) != candidate(name, b),
{
    reveal_strlit("_");
    reveal_strlit(".img");
    let x = candidate(name, a);
    let y = candidate(name, b);
    let db = text::decimal(b as nat);
    text::lemma_decimal(b as nat);
    assert(y.len() == name.len() + 1 + db.len() + 4);
    if a == 1 {
        assert(x.len() == name.len() + 4);
    } else {
        let da = text::decimal(a as nat);
        text::lemma_decimal(a as nat);
        if x == y {
            assert(da.len() == db.len());
            let start = name.len() as int + 1;
            assert(x.subrange(start, start + da.len()) =~= da);
            assert(y.subrange(start, start + db.len()) =~= db);
        }
    }
}

/// Not all of as many names as are taken and one more are taken.
proof fn lemma_some_free(taken: Seq<Seq<char>>, name: Seq<char>, previous: int)
    requires
        previous >= 0,
    ensures
        exists|k: int|
            previous < k <= previous + taken.len() + 1 && !taken.contains(
                #[trigger] candidate(name, k),
            ),
{
    if forall|k: int|
        previous < k <= previous + taken.len() + 1 ==> taken.contains(
            #[trigger] candidate(name, k),
        ) {
        let lo = previous + 1;
        let hi = previous + taken.len() + 2;
        let numbers = vstd::set_lib::set_int_range(lo, hi);
        vstd::set_lib::lemma_int_range(lo, hi);
        let f = |k: int| candidate(name, k);
        let image = numbers.map(f);
        assert(vstd::relations::injective_on(f, numbers)) by {
            assert forall|a: int, b: int|
                numbers.contains(a) && numbers.contains(b) && #[trigger] f(a) == #[trigger] f(
                    b,
                ) implies a == b by {
                if a < b {
                    lemma_candidates_differ(name, a, b);
                }
                if b < a {
                    lemma_candidates_differ(name, b, a);
                }
            }
        }
        vstd::set_lib::lemma_map_size(numbers, image, f);
        let all = taken.to_set();
        assert(image.subset_of(all)) by {
            assert forall|x: Seq<char>| image.contains(x) implies all.contains(x) by {
                let k = choose|k: int| numbers.contains(k) && f(k) == x;
                assert(taken.contains(candidate(name, k)));
            }
        }
        taken.lemma_cardinality_of_set();
        vstd::seq_lib::seq_to_set_is_finite(taken);
        vstd::set_lib::lemma_len_subset(image, all);
    }
}

fn write_candidate(name: &[char], number: u64) -> (written: Vec<char>)
    ensures
        written@ == candidate(name@, number as int),
{
    let mut written = text::copy_chars(name);
    if number != 1 {
        text::append_text(&mut written, "_");
        text::push_decimal(&mut written, number);
    }
    text::append_text(&mut written, ".img");
    assert(written@ =~= candidate(name@, number as int));
    written
}

/// Finds the next number of a name, and the file name that it gives.
fn unique_output_name(taken: &Vec<String>, name: &[char], previous: u64) -> (found: (String, u64))
    requires
        previous <= MAX_RECORDS * (MAX_RECORDS + 1),
        taken@.len() <= MAX_RECORDS,
    ensures
        found.1 == next_number(text::texts(taken@), name@, previous as int),
        found.0@ == candidate(name@, found.1 as int),
        previous < found.1 <= previous + taken@.len() + 1,
{
    let ghost all = text::texts(taken@);
    assert(all.len() == taken@.len());
    let mut number: u64 = previous + 1;
    loop
        invariant
            all == text::texts(taken@),
            all.len() == taken@.len(),
            taken@.len() <= MAX_RECORDS,
            previous <= MAX_RECORDS * (MAX_RECORDS + 1),
            previous < number <= previous + taken@.len() + 1,
            forall|k: int|
                previous < k < number ==> all.contains(#[trigger] candidate(name@, k)),
        decreases previous + taken@.len() + 2 - number,
    {
        let written = write_candidate(name, number);
        if !names::holds_name(taken, written.as_slice()) {
            proof {
                lemma_next_number(all, name@, previous as int, number as int);
            }
            return (text::string_of(written.as_slice()), number);
        }
        proof {
            if number == previous + taken@.len() + 1 {
                lemma_some_free(all, name@, previous as int);
            }
        }
        number += 1;
    }
}

// ---------------------------------------------------------------------------
// Walking over the images
// ---------------------------------------------------------------------------

/// Where the next header is, searched in steps of four bytes from `at` on: the
/// place behind its magic, or none at the end of the data.
pub open spec fn scan_from(data: Seq<u8>, start: int, at: int) -> Result<Option<int>, PackageError>
    decreases data.len() - at,
{
    if at >= data.len() {
        Ok(None)
    } else if at + 4 > data.len() {
        Err(PackageError::TruncatedMagic)
    } else if bytes::stands_at(data, at, magic()) {
        Ok(Some(at + 4))
    } else if at + 4 - start > MAX_SCAN_LEN {
        Err(PackageError::NoMagic)
    } else {
        scan_from(data, start, at + 4)
    }
}

fn scan_magic(data: &[u8], start: usize) -> (found: Result<Option<usize>, PackageError>)
    requires
        start <= data@.len(),
    ensures
        match found {
            Ok(Some(at)) => scan_from(data@, start as int, start as int) == Ok::<
                Option<int>,
                PackageError,
            >(Some(at as int)) && start + 4 <= at <= data@.len(),
            Ok(None) => scan_from(data@, start as int, start as int) == Ok::<
                Option<int>,
                PackageError,
            >(None),
            Err(error) => scan_from(data@, start as int, start as int) == Err::<
                Option<int>,
                PackageError,
            >(error),
        },
{
    let mut at: usize = start;
    loop
        invariant
            start <= at <= data@.len(),
            scan_from(data@, start as int, start as int) == scan_from(
                data@,
                start as int,
                at as int,
            ),
        decreases data@.len() - at,
    {
        if at == data.len() {
            return Ok(None);
        }
        if data.len() - at < 4 {
            return Err(PackageError::TruncatedMagic);
        }
        if is_magic_at(data, at) {
            return Ok(Some(at + 4));
        }
        if at + 4 - start > MAX_SCAN_LEN {
            return Err(PackageError::NoMagic);
        }
        at += 4;
    }
}

/// How far a package was read: the position, the length of the headers, the
/// images, and the number of each image among those with its name.
pub struct WalkState {
    pub offset: int,
    pub metadata: int,
    pub records: Seq<RecordModel>,
    pub numbers: Seq<int>,
}

/// The number that a name had last among the first `n` images.
pub open spec fn last_number(
    records: Seq<RecordModel>,
    numbers: Seq<int>,
    name: Seq<char>,
    n: int,
) -> int
    decreases n,
{
    if n <= 0 {
        0
    } else if records[n - 1].name == name {
        numbers[n - 1]
    } else {
        last_number(records, numbers, name, n - 1)
    }
}

pub open spec fn output_names(records: Seq<RecordModel>) -> Seq<Seq<char>> {
    records.map_values(|r: RecordModel| r.output_name)
}

/// The bytes of a name up to the first zero.
pub open spec fn name_bytes(raw: Seq<u8>, from: int) -> Seq<u8>
    decreases raw.len() - from,
{
    if from < 0 || from >= raw.len() || raw[from] == 0 {
        seq![]
    } else {
        seq![raw[from]] + name_bytes(raw, from + 1)
    }
}

/// The name of an image, with small letters.
pub open spec fn name_of(header: Seq<u8>) -> Seq<char> {
    text::lowered(name_bytes(header.subrange(60, 76), 0).map_values(|b: u8| b as char))
}

/// True when data of the stated length ends before `end`.
pub open spec fn is_beyond(end: int, total: Option<u64>) -> bool {
    total matches Some(length) && end > length
}

/// How many bytes fill a position up to a multiple of four, as far as there is
/// data.
pub open spec fn padding_at(data: Seq<u8>, end: int) -> int {
    let wanted = (4 - end % 4) % 4;
    if data.len() - end < wanted {
        data.len() - end
    } else {
        wanted
    }
}

/// What is wrong with the header at `h`, and how much of it there is.
pub open spec fn header_error(data: Seq<u8>, total: Option<u64>, s: WalkState, h: int) -> Option<
    PackageError,
> {
    let header_size = bytes::le32(data, h + 4);
    let size = bytes::le32(data, h + 24);
    if s.records.len() >= MAX_RECORDS {
        Some(PackageError::TooManyRecords)
    } else if h + 8 > data.len() {
        Some(PackageError::TruncatedHeader)
    } else if !(FIXED_HEADER_LEN <= header_size <= MAX_HEADER_LEN) {
        Some(PackageError::HeaderSize)
    } else if s.metadata + header_size > MAX_METADATA_LEN {
        Some(PackageError::MetadataSize)
    } else if is_beyond(h + header_size, total) {
        Some(PackageError::Truncated)
    } else if h + FIXED_HEADER_LEN > data.len() {
        Some(PackageError::TruncatedHeader)
    } else if is_beyond(h + header_size + size, total) {
        Some(PackageError::Truncated)
    } else {
        match name_error(name_of(data.subrange(h, h + FIXED_HEADER_LEN))) {
            Some(error) => Some(error),
            None => if h + header_size > data.len() {
                Some(PackageError::TruncatedHeader)
            } else if h + header_size + size > data.len() {
                Some(PackageError::Truncated)
            } else {
                None
            },
        }
    }
}

/// The image whose header stands at `h`.
pub open spec fn record_at(data: Seq<u8>, s: WalkState, h: int, number: int) -> RecordModel {
    let header_size = bytes::le32(data, h + 4);
    let header = data.subrange(h, h + FIXED_HEADER_LEN);
    RecordModel {
        name: name_of(header),
        output_name: candidate(name_of(header), number),
        index: s.records.len() as int,
        header_offset: h,
        header_size,
        data_offset: h + header_size,
        size: bytes::le32(data, h + 24),
        header,
        checksum: data.subrange(h + FIXED_HEADER_LEN, h + header_size),
    }
}

/// The number of the image whose header stands at `h`.
pub open spec fn number_at(data: Seq<u8>, s: WalkState, h: int) -> int {
    let name = name_of(data.subrange(h, h + FIXED_HEADER_LEN));
    next_number(
        output_names(s.records),
        name,
        last_number(s.records, s.numbers, name, s.records.len() as int),
    )
}

/// Reads the image whose header stands at `h`.
#[verifier::opaque]
pub open spec fn with_record(data: Seq<u8>, total: Option<u64>, s: WalkState, h: int) -> Result<
    WalkState,
    PackageError,
> {
    match header_error(data, total, s, h) {
        Some(error) => Err(error),
        None => {
            let number = number_at(data, s, h);
            let record = record_at(data, s, h, number);
            let end = record.data_offset + record.size;
            let offset = end + padding_at(data, end);
            if is_beyond(offset, total) {
                Err(PackageError::Truncated)
            } else {
                Ok(
                    WalkState {
                        offset,
                        metadata: s.metadata + record.header_size,
                        records: s.records.push(record),
                        numbers: s.numbers.push(number),
                    },
                )
            }
        },
    }
}

/// An image that is read ends behind its header, within the data.
pub proof fn lemma_with_record(data: Seq<u8>, total: Option<u64>, s: WalkState, h: int)
    requires
        0 <= h,
        with_record(data, total, s, h) is Ok,
    ensures
        h < with_record(data, total, s, h)->Ok_0.offset <= data.len(),
{
    reveal(with_record);
}

/// A header that is found lies behind where the search starts.
pub proof fn lemma_scan(data: Seq<u8>, start: int, at: int)
    requires
        start <= at,
        scan_from(data, start, at) matches Ok(Some(_)),
    ensures
        scan_from(data, start, at)->Ok_0->0 >= at + 4,
    decreases data.len() - at,
{
    if !bytes::stands_at(data, at, magic()) {
        lemma_scan(data, start, at + 4);
    }
}

/// The images of a package from a state on. At the end there is at least one
/// image, and the data is as long as stated.
pub open spec fn walk(data: Seq<u8>, total: Option<u64>, s: WalkState) -> Result<
    Seq<RecordModel>,
    PackageError,
>
    decreases
            (if s.offset >= 0 && s.offset <= data.len() {
                data.len() - s.offset
            } else {
                0
            }),
{
    if s.offset < 0 || s.offset > data.len() {
        Err(PackageError::Truncated)
    } else {
        match scan_from(data, s.offset, s.offset) {
            Err(error) => Err(error),
            Ok(None) => if s.records.len() == 0 {
                Err(PackageError::NoRecords)
            } else if total matches Some(length) && length != data.len() {
                Err(PackageError::LengthMismatch)
            } else {
                Ok(s.records)
            },
            Ok(Some(at)) => match with_record(data, total, s, at - 4) {
                Err(error) => Err(error),
                Ok(next) => {
                    proof {
                        lemma_scan(data, s.offset, s.offset);
                        lemma_with_record(data, total, s, at - 4);
                    }
                    walk(data, total, next)
                },
            },
        }
    }
}

/// The images of a package.
pub open spec fn records_of(data: Seq<u8>, total: Option<u64>) -> Result<
    Seq<RecordModel>,
    PackageError,
> {
    walk(data, total, WalkState { offset: 0, metadata: 0, records: seq![], numbers: seq![] })
}

fn read_name(raw: &[u8]) -> (name: Vec<char>)
    ensures
        name@ == text::lowered(name_bytes(raw@, 0).map_values(|b: u8| b as char)),
{
    let mut chars: Vec<char> = Vec::new();
    let ghost all = name_bytes(raw@, 0).map_values(|b: u8| b as char);
    let mut i: usize = 0;
    assert(chars@ + all =~= all);
    while i < raw.len() && raw[i] != 0
        invariant
            i <= raw@.len(),
            chars@ + name_bytes(raw@, i as int).map_values(|b: u8| b as char) == all,
        decreases raw@.len() - i,
    {
        let ghost rest = name_bytes(raw@, i + 1).map_values(|b: u8| b as char);
        let ghost before = chars@;
        let c = raw[i] as char;
        assert(name_bytes(raw@, i as int).map_values(|b: u8| b as char) =~= seq![c] + rest);
        chars.push(c);
        assert(before + (seq![c] + rest) =~= chars@ + rest);
        i += 1;
    }
    assert(chars@ =~= all);
    text::lower(chars.as_slice())
}

/// The state of a walk that was carried on so far.
struct Walk {
    offset: usize,
    metadata: u64,
    records: Vec<Record>,
    outputs: Vec<String>,
    numbers: Vec<u64>,
}

impl Walk {
    spec fn state(&self) -> WalkState {
        WalkState {
            offset: self.offset as int,
            metadata: self.metadata as int,
            records: record_models(self.records@),
            numbers: self.numbers@.map_values(|n: u64| n as int),
        }
    }

    spec fn well_formed(&self, data: Seq<u8>) -> bool {
        &&& self.offset <= data.len()
        &&& self.metadata <= MAX_METADATA_LEN
        &&& self.records@.len() <= MAX_RECORDS
        &&& self.outputs@.len() == self.records@.len()
        &&& self.numbers@.len() == self.records@.len()
        &&& text::texts(self.outputs@) == output_names(record_models(self.records@))
        &&& forall|i: int|
            0 <= i < self.numbers@.len() ==> (#[trigger] self.numbers@[i]) <= self.records@.len() * (
            MAX_RECORDS + 1)
    }

    fn previous(&self, name: &[char]) -> (number: u64)
        requires
            self.numbers@.len() == self.records@.len(),
            forall|i: int|
                0 <= i < self.numbers@.len() ==> (#[trigger] self.numbers@[i])
                    <= self.records@.len() * (MAX_RECORDS + 1),
        ensures
            number == last_number(
                self.state().records,
                self.state().numbers,
                name@,
                self.records@.len() as int,
            ),
            number <= self.records@.len() * (MAX_RECORDS + 1),
    {
        let ghost records = self.state().records;
        let ghost numbers = self.state().numbers;
        let mut n: usize = self.records.len();
        while n > 0
            invariant
                n <= self.records@.len(),
                self.numbers@.len() == self.records@.len(),
                forall|i: int|
                    0 <= i < self.numbers@.len() ==> (#[trigger] self.numbers@[i])
                        <= self.records@.len() * (MAX_RECORDS + 1),
                records == self.state().records,
                numbers == self.state().numbers,
                last_number(records, numbers, name@, self.records@.len() as int) == last_number(
                    records,
                    numbers,
                    name@,
                    n as int,
                ),
            decreases n,
        {
            assert(records[n - 1] == self.records@[n - 1]@);
            assert(numbers[n - 1] == self.numbers@[n - 1]);
            if text::is_text(name, self.records[n - 1].name.as_str()) {
                return self.numbers[n - 1];
            }
            n -= 1;
        }
        assert(0 <= self.records@.len() * (MAX_RECORDS + 1)) by (nonlinear_arith)
            requires
                self.records@.len() >= 0,
        ;
        0
    }

    /// Reads the image whose header stands at `h`.
    fn read(&mut self, data: &[u8], total: Option<u64>, h: usize) -> (done: Result<
        (),
        PackageError,
    >)
        requires
            old(self).well_formed(data@),
            old(self).offset <= h,
            h + 4 <= data@.len(),
        ensures
            match done {
                Ok(()) => with_record(data@, total, old(self).state(), h as int) == Ok::<
                    WalkState,
                    PackageError,
                >(final(self).state()) && final(self).well_formed(data@) && final(self).offset > h,
                Err(error) => with_record(data@, total, old(self).state(), h as int) == Err::<
                    WalkState,
                    PackageError,
                >(error),
            },
    {
        reveal(with_record);
        assert(data.len() <= usize::MAX);
        let ghost s = self.state();
        assert(s.records.len() == self.records@.len());
        if self.records.len() >= MAX_RECORDS {
            return Err(PackageError::TooManyRecords);
        }
        if data.len() - h < 8 {
            return Err(PackageError::TruncatedHeader);
        }
        let header_size: u64 = bytes::read_u32(data, h + 4) as u64;
        if header_size < 98 || header_size > MAX_HEADER_LEN {
            return Err(PackageError::HeaderSize);
        }
        if self.metadata + header_size > MAX_METADATA_LEN {
            return Err(PackageError::MetadataSize);
        }
        let data_offset: u128 = h as u128 + header_size as u128;
        if beyond(data_offset, total) {
            return Err(PackageError::Truncated);
        }
        if data.len() - h < FIXED_HEADER_LEN {
            return Err(PackageError::TruncatedHeader);
        }
        let size: u64 = bytes::read_u32(data, h + 24) as u64;
        let end: u128 = data_offset + size as u128;
        if beyond(end, total) {
            return Err(PackageError::Truncated);
        }
        let header = bytes::copy_range(data, h, h + FIXED_HEADER_LEN);
        let ghost wanted_header = data@.subrange(h as int, h + FIXED_HEADER_LEN);
        let name = read_name(&header.as_slice()[60..76]);
        assert(name@ == name_of(wanted_header));
        if let Err(error) = validate_name(name.as_slice()) {
            return Err(error);
        }
        if data_offset > data.len() as u128 {
            return Err(PackageError::TruncatedHeader);
        }
        if end > data.len() as u128 {
            return Err(PackageError::Truncated);
        }
        let checksum = bytes::copy_range(data, h + FIXED_HEADER_LEN, data_offset as usize);
        let previous: u64 = self.previous(name.as_slice());
        assert(self.records@.len() * (MAX_RECORDS + 1) <= MAX_RECORDS * (MAX_RECORDS + 1))
            by (nonlinear_arith)
            requires
                0 <= self.records@.len() <= MAX_RECORDS,
        ;
        let (output, number) = unique_output_name(&self.outputs, name.as_slice(), previous);
        let finish: usize = end as usize;
        let wanted: usize = (4 - finish % 4) % 4;
        let padding: usize = if data.len() - finish < wanted {
            data.len() - finish
        } else {
            wanted
        };
        let offset: usize = finish + padding;
        if beyond(offset as u128, total) {
            return Err(PackageError::Truncated);
        }
        let record = Record {
            name: text::string_of(name.as_slice()),
            output_name: output.clone(),
            index: self.records.len(),
            header_offset: h as u64,
            header_size,
            data_offset: data_offset as u64,
            size,
            header,
            checksum,
        };
        let ghost model = record@;
        assert(model == record_at(data@, s, h as int, number as int));
        let ghost texts_before = text::texts(self.outputs@);
        self.offset = offset;
        self.metadata = self.metadata + header_size;
        self.records.push(record);
        self.outputs.push(output);
        self.numbers.push(number);
        proof {
            assert(record_models(self.records@) =~= s.records.push(model));
            assert(self.numbers@.map_values(|n: u64| n as int) =~= s.numbers.push(number as int));
            assert(text::texts(self.outputs@) =~= texts_before.push(model.output_name));
            assert(output_names(s.records.push(model)) =~= output_names(s.records).push(
                model.output_name,
            ));
            let n = s.records.len() as int;
            assert((n + 1) * (MAX_RECORDS + 1) == n * (MAX_RECORDS + 1) + (MAX_RECORDS + 1))
                by (nonlinear_arith);
            assert forall|i: int| 0 <= i < self.numbers@.len() implies (#[trigger] self.numbers@[i])
                <= self.records@.len() * (MAX_RECORDS + 1) by {
                if i < n {
                    assert(self.numbers@[i] == old(self).numbers@[i]);
                    assert(old(self).numbers@[i] <= n * (MAX_RECORDS + 1));
                }
            }
        }
        Ok(())
    }
}

fn beyond(end: u128, total: Option<u64>) -> (is: bool)
    ensures
        is == is_beyond(end as int, total),
{
    match total {
        Some(length) => end > length as u128,
        None => false,
    }
}

/// Lists the images of a package. `total_length` is the length that the package
/// is known to have.
pub fn inspect_reader(data: &[u8], total_length: Option<u64>) -> (index: Result<
    Index,
    PackageError,
>)
    ensures
        match index {
            Ok(found) => records_of(data@, total_length) == Ok::<Seq<RecordModel>, PackageError>(
                record_models(found.records@),
            ),
            Err(error) => records_of(data@, total_length) == Err::<
                Seq<RecordModel>,
                PackageError,
            >(error),
        },
{
    let mut state = Walk {
        offset: 0,
        metadata: 0,
        records: Vec::new(),
        outputs: Vec::new(),
        numbers: Vec::new(),
    };
    proof {
        let first = WalkState { offset: 0, metadata: 0, records: seq![], numbers: seq![] };
        assert(state.state().records =~= first.records);
        assert(state.state().numbers =~= first.numbers);
        assert(text::texts(state.outputs@) =~= output_names(record_models(state.records@)));
    }
    loop
        invariant
            state.well_formed(data@),
            records_of(data@, total_length) == walk(data@, total_length, state.state()),
        decreases data@.len() - state.offset,
    {
        let ghost s = state.state();
        match scan_magic(data, state.offset) {
            Err(error) => {
                return Err(error);
            },
            Ok(None) => {
                assert(s.records.len() == state.records@.len());
                if state.records.len() == 0 {
                    return Err(PackageError::NoRecords);
                }
                if let Some(length) = total_length {
                    if length != data.len() as u64 {
                        return Err(PackageError::LengthMismatch);
                    }
                }
                return Ok(Index { records: state.records });
            },
            Ok(Some(at)) => {
                if let Err(error) = state.read(data, total_length, at - 4) {
                    return Err(error);
                }
            },
        }
    }
}

// ---------------------------------------------------------------------------
// Laws
// ---------------------------------------------------------------------------

/// True when images follow one another within the first `end` bytes, and no two
/// have one file name.
pub open spec fn are_apart(records: Seq<RecordModel>, end: int) -> bool {
    &&& forall|i: int|
        0 <= i < records.len() ==> {
            let r = #[trigger] records[i];
            &&& 0 <= r.header_offset
            &&& r.data_offset == r.header_offset + r.header_size
            &&& r.header_size >= FIXED_HEADER_LEN
            &&& 0 <= r.size
            &&& r.data_offset + r.size <= end
            &&& r.index == i
        }
    &&& forall|i: int, j: int|
        0 <= i < j < records.len() ==> (#[trigger] records[i]).data_offset + records[i].size <= (
        #[trigger] records[j]).header_offset && records[i].output_name != records[j].output_name
}

proof fn lemma_apart_step(data: Seq<u8>, total: Option<u64>, s: WalkState, h: int)
    requires
        0 <= s.offset <= h,
        are_apart(s.records, s.offset),
        with_record(data, total, s, h) is Ok,
    ensures
        are_apart(
            with_record(data, total, s, h)->Ok_0.records,
            with_record(data, total, s, h)->Ok_0.offset,
        ),
{
    reveal(with_record);
    let next = with_record(data, total, s, h)->Ok_0;
    let name = name_of(data.subrange(h, h + FIXED_HEADER_LEN));
    let taken = output_names(s.records);
    let previous = last_number(s.records, s.numbers, name, s.records.len() as int);
    let number = number_at(data, s, h);
    lemma_number_free(taken, name, previous);
    assert(is_next_number(taken, name, previous, number));
    let n = s.records.len() as int;
    assert forall|i: int, j: int| 0 <= i < j < next.records.len() implies (
    #[trigger] next.records[i]).data_offset + next.records[i].size <= (
    #[trigger] next.records[j]).header_offset && next.records[i].output_name
        != next.records[j].output_name by {
        if j < n {
            assert(next.records[i] == s.records[i] && next.records[j] == s.records[j]);
        } else {
            assert(next.records[i] == s.records[i]);
            assert(taken[i] == s.records[i].output_name);
        }
    }
}

/// There is a next number of every name.
proof fn lemma_number_free(taken: Seq<Seq<char>>, name: Seq<char>, previous: int)
    ensures
        exists|number: int| is_next_number(taken, name, previous, number),
{
    lemma_first_free(taken, name, previous, previous + 1);
}

proof fn lemma_first_free(taken: Seq<Seq<char>>, name: Seq<char>, previous: int, from: int)
    requires
        previous < from,
        forall|k: int| previous < k < from ==> taken.contains(#[trigger] candidate(name, k)),
    ensures
        exists|number: int| is_next_number(taken, name, previous, number),
    decreases bound_of(taken, previous) - from,
{
    if taken.contains(candidate(name, from)) {
        let start = if previous < 0 {
            0
        } else {
            previous
        };
        lemma_some_free(taken, name, start);
        if from >= start + taken.len() + 1 {
            let k = choose|k: int|
                start < k <= start + taken.len() + 1 && !taken.contains(
                    #[trigger] candidate(name, k),
                );
            assert(taken.contains(candidate(name, k)));
        }
        lemma_first_free(taken, name, previous, from + 1);
    } else {
        assert(is_next_number(taken, name, previous, from));
    }
}

spec fn bound_of(taken: Seq<Seq<char>>, previous: int) -> int {
    if previous < 0 {
        taken.len() as int + 2
    } else {
        previous + taken.len() + 2
    }
}

proof fn lemma_walk_apart(data: Seq<u8>, total: Option<u64>, s: WalkState)
    requires
        0 <= s.offset <= data.len(),
        are_apart(s.records, s.offset),
        walk(data, total, s) is Ok,
    ensures
        are_apart(walk(data, total, s)->Ok_0, data.len() as int),
    decreases data.len() - s.offset,
{
    if let Ok(Some(at)) = scan_from(data, s.offset, s.offset) {
        lemma_scan(data, s.offset, s.offset);
        lemma_with_record(data, total, s, at - 4);
        lemma_apart_step(data, total, s, at - 4);
        lemma_walk_apart(data, total, with_record(data, total, s, at - 4)->Ok_0);
    }
}

/// The images of a package follow one another within its data, and each is
/// written to a file of its own.
pub proof fn law_images_are_apart(data: Seq<u8>, total: Option<u64>)
    requires
        records_of(data, total) is Ok,
    ensures
        are_apart(records_of(data, total)->Ok_0, data.len() as int),
{
    lemma_walk_apart(
        data,
        total,
        WalkState { offset: 0, metadata: 0, records: seq![], numbers: seq![] },
    );
}

// ---------------------------------------------------------------------------
// Selecting images
// ---------------------------------------------------------------------------

/// The name that a request means: with small letters, and without the suffix of
/// image files.
pub open spec fn requested_name(request: Seq<char>) -> Seq<char> {
    let small = text::lowered(request);
    if text::ends_with(small, ".img"@) {
        small.take(small.len() - 4)
    } else {
        small
    }
}

/// The names that the first `n` requests mean.
pub open spec fn selection(requests: Seq<Seq<char>>, n: int) -> Result<Seq<Seq<char>>, PackageError>
    decreases n,
{
    if n <= 0 {
        Ok(seq![])
    } else {
        match selection(requests, n - 1) {
            Err(error) => Err(error),
            Ok(before) => match name_error(requested_name(requests[n - 1])) {
                Some(error) => Err(error),
                None => Ok(before.push(requested_name(requests[n - 1]))),
            },
        }
    }
}

proof fn lemma_selection_fails(requests: Seq<Seq<char>>, n: int, m: int)
    requires
        0 <= n <= m,
        selection(requests, n) is Err,
    ensures
        selection(requests, m) == selection(requests, n),
    decreases m,
{
    if n < m {
        lemma_selection_fails(requests, n, m - 1);
    }
}

/// Reads which images are wanted.
pub fn normalize_selection(requests: &Vec<String>) -> (wanted: Result<Vec<String>, PackageError>)
    ensures
        ({
            let all = text::texts(requests@);
            match wanted {
                Ok(list) => selection(all, all.len() as int) == Ok::<Seq<Seq<char>>, PackageError>(
                    text::texts(list@),
                ),
                Err(error) => selection(all, all.len() as int) == Err::<
                    Seq<Seq<char>>,
                    PackageError,
                >(error),
            }
        }),
{
    let ghost all = text::texts(requests@);
    let mut list: Vec<String> = Vec::new();
    let mut n: usize = 0;
    assert(text::texts(list@) =~= Seq::<Seq<char>>::empty());
    while n < requests.len()
        invariant
            n <= requests@.len(),
            all == text::texts(requests@),
            selection(all, n as int) == Ok::<Seq<Seq<char>>, PackageError>(text::texts(list@)),
        decreases requests@.len() - n,
    {
        assert(all[n as int] == requests@[n as int]@);
        let small = text::lower(text::chars_of(requests[n].as_str()).as_slice());
        proof {
            reveal_strlit(".img");
        }
        let name = if text::ends(small.as_slice(), ".img") {
            text::copy_chars(&small.as_slice()[0..small.len() - 4])
        } else {
            text::copy_chars(small.as_slice())
        };
        assert(name@ =~= requested_name(all[n as int]));
        if let Err(error) = validate_name(name.as_slice()) {
            proof {
                lemma_selection_fails(all, n + 1, all.len() as int);
            }
            return Err(error);
        }
        let ghost before = text::texts(list@);
        list.push(text::string_of(name.as_slice()));
        assert(text::texts(list@) =~= before.push(name@));
        n += 1;
    }
    assert(all.len() == requests@.len());
    Ok(list)
}

/// An image that is to be written, and the path of its file.
#[derive(Debug)]
pub struct Extracted {
    pub record: Record,
    pub path: String,
}

/// True when an image is wanted: all are, where none is asked for.
pub open spec fn is_wanted(wanted: Seq<Seq<char>>, name: Seq<char>) -> bool {
    wanted.len() == 0 || wanted.contains(name)
}

/// The wanted images among the first `n`, with the paths of their files.
pub open spec fn extraction(
    records: Seq<RecordModel>,
    wanted: Seq<Seq<char>>,
    out: Seq<char>,
    n: int,
) -> Seq<(RecordModel, Seq<char>)>
    decreases n,
{
    if n <= 0 {
        seq![]
    } else {
        let before = extraction(records, wanted, out, n - 1);
        if is_wanted(wanted, records[n - 1].name) {
            before.push((records[n - 1], names::joined(out, records[n - 1].output_name)))
        } else {
            before
        }
    }
}

pub open spec fn extracted_models(list: Seq<Extracted>) -> Seq<(RecordModel, Seq<char>)> {
    list.map_values(|e: Extracted| (e.record@, e.path@))
}

/// True when every name is that of some image.
pub open spec fn all_present(records: Seq<RecordModel>, wanted: Seq<Seq<char>>) -> bool {
    forall|i: int| 0 <= i < wanted.len() ==> has_name(records, #[trigger] wanted[i])
}

pub open spec fn has_name(records: Seq<RecordModel>, name: Seq<char>) -> bool {
    exists|i: int| 0 <= i < records.len() && (#[trigger] records[i]).name == name
}

/// What is to be written of a package.
pub open spec fn unpacked(
    data: Seq<u8>,
    total: Option<u64>,
    out: Seq<char>,
    requests: Seq<Seq<char>>,
) -> Result<Seq<(RecordModel, Seq<char>)>, PackageError> {
    match selection(requests, requests.len() as int) {
        Err(error) => Err(error),
        Ok(wanted) => match records_of(data, total) {
            Err(error) => Err(error),
            Ok(records) => if all_present(records, wanted) {
                Ok(extraction(records, wanted, out, records.len() as int))
            } else {
                Err(PackageError::MissingImage)
            },
        },
    }
}

proof fn lemma_all_extracted(records: Seq<RecordModel>, out: Seq<char>, n: int)
    requires
        0 <= n <= records.len(),
    ensures
        extraction(records, seq![], out, n) == Seq::new(
            n as nat,
            |i: int| (records[i], names::joined(out, records[i].output_name)),
        ),
    decreases n,
{
    if n > 0 {
        lemma_all_extracted(records, out, n - 1);
    }
    assert(extraction(records, seq![], out, n) =~= Seq::new(
        n as nat,
        |i: int| (records[i], names::joined(out, records[i].output_name)),
    ));
}

/// Where nothing is asked for, every image of a package is unpacked, in the
/// order of the package.
pub proof fn law_everything_is_unpacked(data: Seq<u8>, total: Option<u64>, out: Seq<char>)
    ensures
        unpacked(data, total, out, seq![]) == match records_of(data, total) {
            Err(error) => Err(error),
            Ok(records) => Ok(
                Seq::new(
                    records.len(),
                    |i: int| (records[i], names::joined(out, records[i].output_name)),
                ),
            ),
        },
{
    if let Ok(records) = records_of(data, total) {
        lemma_all_extracted(records, out, records.len() as int);
    }
}

fn find_name(records: &Vec<Record>, name: &str) -> (found: bool)
    ensures
        found == has_name(record_models(records@), name@),
{
    let ghost all = record_models(records@);
    let mut n: usize = 0;
    while n < records.len()
        invariant
            n <= records@.len(),
            all == record_models(records@),
            forall|i: int| 0 <= i < n ==> (#[trigger] all[i]).name != name@,
        decreases records@.len() - n,
    {
        assert(all[n as int] == records@[n as int]@);
        if text::same_text(records[n].name.as_str(), name) {
            assert(all[n as int].name == name@);
            return true;
        }
        n += 1;
    }
    assert(all.len() == records@.len());
    false
}

/// Plans what to write of a package to a directory: the images that are asked
/// for, or all of them.
pub fn unpack_reader(
    data: &[u8],
    total_length: Option<u64>,
    out: &str,
    requests: &Vec<String>,
) -> (plan: Result<Vec<Extracted>, PackageError>)
    ensures
        match plan {
            Ok(list) => unpacked(data@, total_length, out@, text::texts(requests@)) == Ok::<
                Seq<(RecordModel, Seq<char>)>,
                PackageError,
            >(extracted_models(list@)),
            Err(error) => unpacked(data@, total_length, out@, text::texts(requests@)) == Err::<
                Seq<(RecordModel, Seq<char>)>,
                PackageError,
            >(error),
        },
{
    let wanted = match normalize_selection(requests) {
        Ok(wanted) => wanted,
        Err(error) => {
            return Err(error);
        },
    };
    let ghost names_wanted = text::texts(wanted@);
    assert(names_wanted.len() == wanted@.len());
    let index = match inspect_reader(data, total_length) {
        Ok(index) => index,
        Err(error) => {
            return Err(error);
        },
    };
    let mut records = index.records;
    let ghost all = record_models(records@);
    let ghost requests_texts = text::texts(requests@);
    assert(selection(requests_texts, requests_texts.len() as int) == Ok::<
        Seq<Seq<char>>,
        PackageError,
    >(names_wanted));
    assert(text::texts(requests@).len() == requests@.len());
    let mut i: usize = 0;
    while i < wanted.len()
        invariant
            i <= wanted@.len(),
            names_wanted == text::texts(wanted@),
            all == record_models(records@),
            records_of(data@, total_length) == Ok::<Seq<RecordModel>, PackageError>(all),
            requests_texts == text::texts(requests@),
            selection(requests_texts, requests_texts.len() as int) == Ok::<
                Seq<Seq<char>>,
                PackageError,
            >(names_wanted),
            forall|k: int| 0 <= k < i ==> has_name(all, #[trigger] names_wanted[k]),
        decreases wanted@.len() - i,
    {
        assert(names_wanted[i as int] == wanted@[i as int]@);
        if !find_name(&records, wanted[i].as_str()) {
            assert(!all_present(all, names_wanted));
            return Err(PackageError::MissingImage);
        }
        i += 1;
    }
    assert(all_present(all, names_wanted));
    let directory = text::chars_of(out);
    let mut list: Vec<Extracted> = Vec::new();
    let mut n: usize = 0;
    let count: usize = records.len();
    assert(extracted_models(list@) =~= Seq::<(RecordModel, Seq<char>)>::empty());
    while n < count
        invariant
            n <= count,
            count == all.len(),
            names_wanted == text::texts(wanted@),
            names_wanted.len() == wanted@.len(),
            directory@ == out@,
            records@.len() == count - n,
            forall|k: int| 0 <= k < records@.len() ==> (#[trigger] records@[k])@ == all[n + k],
            extracted_models(list@) == extraction(all, names_wanted, out@, n as int),
        decreases count - n,
    {
        let record = records.remove(0);
        assert(record@ == all[n as int]);
        let name = text::chars_of(record.name.as_str());
        if wanted.len() == 0 || names::holds_name(&wanted, name.as_slice()) {
            let file = text::chars_of(record.output_name.as_str());
            let path = names::join(directory.as_slice(), file.as_slice());
            let ghost before = extracted_models(list@);
            let ghost model = (record@, path@);
            list.push(Extracted { record, path: text::string_of(path.as_slice()) });
            assert(extracted_models(list@) =~= before.push(model));
        }
        n += 1;
    }
    Ok(list)
}

/// Plans what to write of a whole package: the images that are asked for.
pub fn unpack_selected(data: &[u8], out: &str, requests: &Vec<String>) -> (plan: Result<
    Vec<Extracted>,
    PackageError,
>)
    ensures
        match plan {
            Ok(list) => unpacked(
                data@,
                Some(data@.len() as u64),
                out@,
                text::texts(requests@),
            ) == Ok::<Seq<(RecordModel, Seq<char>)>, PackageError>(extracted_models(list@)),
            Err(error) => unpacked(
                data@,
                Some(data@.len() as u64),
                out@,
                text::texts(requests@),
            ) == Err::<Seq<(RecordModel, Seq<char>)>, PackageError>(error),
        },
{
    unpack_reader(data, Some(data.len() as u64), out, requests)
}

/// Plans what to write of a whole package: all of its images.
pub fn unpack(data: &[u8], out: &str) -> (plan: Result<Vec<Extracted>, PackageError>)
    ensures
        match plan {
            Ok(list) => unpacked(data@, Some(data@.len() as u64), out@, seq![]) == Ok::<
                Seq<(RecordModel, Seq<char>)>,
                PackageError,
            >(extracted_models(list@)),
            Err(error) => unpacked(data@, Some(data@.len() as u64), out@, seq![]) == Err::<
                Seq<(RecordModel, Seq<char>)>,
                PackageError,
            >(error),
        },
{
    let requests: Vec<String> = Vec::new();
    assert(text::texts(requests@) =~= Seq::<Seq<char>>::empty());
    unpack_selected(data, out, &requests)
}

// ---------------------------------------------------------------------------
// Archives
// ---------------------------------------------------------------------------

/// An entry of an archive: whether its name stays within the archive, and its
/// last component.
#[derive(Debug)]
pub struct ArchiveEntry {
    pub enclosed: bool,
    pub directory: bool,
    pub file_name: Option<String>,
}

/// True for the entry that holds the package.
pub open spec fn is_package_entry(e: ArchiveEntry) -> bool {
    !e.directory && (e.file_name matches Some(name) && text::lowered(name@) == "update.app"@)
}

/// The entry that holds the package, among the first `n`.
pub open spec fn package_entry(entries: Seq<ArchiveEntry>, n: int) -> Result<
    Option<int>,
    PackageError,
>
    decreases n,
{
    if n <= 0 {
        Ok(None)
    } else {
        match package_entry(entries, n - 1) {
            Err(error) => Err(error),
            Ok(found) => if !entries[n - 1].enclosed {
                Err(PackageError::UnsafeEntry)
            } else if !is_package_entry(entries[n - 1]) {
                Ok(found)
            } else if found is Some {
                Err(PackageError::SeveralPackages)
            } else {
                Ok(Some(n - 1))
            },
        }
    }
}

proof fn lemma_entry_fails(entries: Seq<ArchiveEntry>, n: int, m: int)
    requires
        0 <= n <= m,
        package_entry(entries, n) is Err,
    ensures
        package_entry(entries, m) == package_entry(entries, n),
    decreases m,
{
    if n < m {
        lemma_entry_fails(entries, n, m - 1);
    }
}

/// Finds the one entry of an archive that holds the package.
pub fn find_update_app(entries: &Vec<ArchiveEntry>) -> (index: Result<usize, PackageError>)
    ensures
        ({
            let found = package_entry(entries@, entries@.len() as int);
            match index {
                Ok(i) => found == Ok::<Option<int>, PackageError>(Some(i as int)),
                Err(PackageError::NoPackage) => found == Ok::<Option<int>, PackageError>(None),
                Err(error) => found == Err::<Option<int>, PackageError>(error),
            }
        }),
{
    let mut found: Option<usize> = None;
    let mut n: usize = 0;
    while n < entries.len()
        invariant
            n <= entries@.len(),
            package_entry(entries@, n as int) == Ok::<Option<int>, PackageError>(
                match found {
                    Some(i) => Some(i as int),
                    None => None,
                },
            ),
        decreases entries@.len() - n,
    {
        let e = &entries[n];
        if !e.enclosed {
            proof {
                lemma_entry_fails(entries@, n + 1, entries@.len() as int);
            }
            return Err(PackageError::UnsafeEntry);
        }
        let mut matches = false;
        if let Some(name) = &e.file_name {
            let small = text::lower(text::chars_of(name.as_str()).as_slice());
            matches = text::is_text(small.as_slice(), "update.app");
        }
        if !e.directory && matches {
            if found.is_some() {
                proof {
                    lemma_entry_fails(entries@, n + 1, entries@.len() as int);
                }
                return Err(PackageError::SeveralPackages);
            }
            found = Some(n);
        }
        n += 1;
    }
    match found {
        Some(i) => Ok(i),
        None => Err(PackageError::NoPackage),
    }
}

/// Checks that an entry that is stored as it is lies before the directory of
/// the archive.
pub fn check_stored_entry(
    compressed_size: u64,
    size: u64,
    data_start: u64,
    directory_start: u64,
) -> (valid: Result<(), PackageError>)
    ensures
        match valid {
            Ok(()) => compressed_size == size && data_start + size <= directory_start,
            Err(error) => error == PackageError::StoredSize && (compressed_size != size || data_start
                + size > directory_start),
        },
{
    if compressed_size != size || data_start as u128 + size as u128 > directory_start as u128 {
        Err(PackageError::StoredSize)
    } else {
        Ok(())
    }
}

// ---------------------------------------------------------------------------
// Laws on selections
// ---------------------------------------------------------------------------

/// True when a request means the images of a name: it is the name, or the name
/// of its image file, in letters of any size.
pub open spec fn means(request: Seq<char>, name: Seq<char>) -> bool {
    ||| text::lowered(request) == name + ".img"@
    ||| text::lowered(request) == name && !(exists|stem: Seq<char>| name == #[trigger] (stem
        + ".img"@))
}

/// True when some request means the images of a name.
pub open spec fn is_asked_for(requests: Seq<Seq<char>>, name: Seq<char>) -> bool {
    exists|i: int| 0 <= i < requests.len() && means(#[trigger] requests[i], name)
}

proof fn lemma_means(request: Seq<char>, name: Seq<char>)
    ensures
        means(request, name) <==> requested_name(request) == name,
{
    reveal_strlit(".img");
    let small = text::lowered(request);
    let suffix = ".img"@;
    if text::ends_with(small, suffix) {
        let stem = small.take(small.len() - 4);
        assert(small =~= stem + suffix);
        if small == name + suffix {
            assert(name =~= stem);
        }
    } else {
        if small == name + suffix {
            assert(small.skip(small.len() - 4) =~= suffix);
        }
        if small == name && exists|stem: Seq<char>| name == #[trigger] (stem + suffix) {
            let stem = choose|stem: Seq<char>| name == #[trigger] (stem + suffix);
            assert(small.skip(small.len() - 4) =~= suffix);
        }
    }
}

proof fn lemma_selected(requests: Seq<Seq<char>>, n: int)
    requires
        0 <= n <= requests.len(),
        selection(requests, n) is Ok,
    ensures
        selection(requests, n)->Ok_0.len() == n,
        forall|i: int|
            0 <= i < n ==> #[trigger] selection(requests, n)->Ok_0[i] == requested_name(
                requests[i],
            ),
    decreases n,
{
    if n > 0 {
        lemma_selected(requests, n - 1);
    }
}

proof fn lemma_extracted(
    records: Seq<RecordModel>,
    wanted: Seq<Seq<char>>,
    out: Seq<char>,
    n: int,
    p: spec_fn(RecordModel) -> bool,
)
    requires
        0 <= n <= records.len(),
        forall|r: RecordModel| #[trigger] p(r) == is_wanted(wanted, r.name),
    ensures
        ({
            let plan = extraction(records, wanted, out, n);
            let chosen = records.take(n).filter(p);
            &&& plan.len() == chosen.len()
            &&& forall|k: int|
                0 <= k < plan.len() ==> (#[trigger] plan[k]).0 == chosen[k] && plan[k].1
                    == names::joined(out, chosen[k].output_name)
        }),
    decreases n,
{
    reveal(Seq::filter);
    if n > 0 {
        lemma_extracted(records, wanted, out, n - 1, p);
        assert(records.take(n).drop_last() =~= records.take(n - 1));
        assert(records.take(n).last() == records[n - 1]);
    } else {
        assert(records.take(0) =~= Seq::<RecordModel>::empty());
    }
}

/// What is unpacked is what was asked for. With requests, those images of the
/// package that some request means are in the plan, and no others, once and in
/// the order of the package, each with the path of its file; and every request
/// has an image in it.
pub proof fn law_requests_select_their_images(
    data: Seq<u8>,
    total: Option<u64>,
    out: Seq<char>,
    requests: Seq<Seq<char>>,
)
    requires
        requests.len() > 0,
        unpacked(data, total, out, requests) is Ok,
    ensures
        ({
            let plan = unpacked(data, total, out, requests)->Ok_0;
            let records = records_of(data, total)->Ok_0;
            let chosen = records.filter(|r: RecordModel| is_asked_for(requests, r.name));
            &&& records_of(data, total) is Ok
            &&& plan.len() == chosen.len()
            &&& forall|k: int|
                0 <= k < plan.len() ==> (#[trigger] plan[k]).0 == chosen[k] && plan[k].1
                    == names::joined(out, chosen[k].output_name)
            &&& forall|i: int|
                0 <= i < requests.len() ==> exists|k: int|
                    0 <= k < plan.len() && means(#[trigger] requests[i], (#[trigger] plan[k]).0.name)
        }),
{
    let n = requests.len() as int;
    let plan = unpacked(data, total, out, requests)->Ok_0;
    let records = records_of(data, total)->Ok_0;
    let wanted = selection(requests, n)->Ok_0;
    let p = |r: RecordModel| is_asked_for(requests, r.name);
    let chosen = records.filter(p);
    lemma_selected(requests, n);
    assert forall|r: RecordModel| #[trigger] p(r) == is_wanted(wanted, r.name) by {
        if is_asked_for(requests, r.name) {
            let i = choose|i: int| 0 <= i < requests.len() && means(#[trigger] requests[i], r.name);
            lemma_means(requests[i], r.name);
            assert(wanted[i] == r.name);
        }
        if wanted.contains(r.name) {
            let i = choose|i: int| 0 <= i < wanted.len() && wanted[i] == r.name;
            lemma_means(requests[i], r.name);
            assert(means(requests[i], r.name));
        }
    }
    lemma_extracted(records, wanted, out, records.len() as int, p);
    assert(records.take(records.len() as int) =~= records);
    assert forall|i: int| 0 <= i < requests.len() implies exists|k: int|
        0 <= k < plan.len() && means(#[trigger] requests[i], (#[trigger] plan[k]).0.name) by {
        assert(has_name(records, wanted[i]));
        let j = choose|j: int| 0 <= j < records.len() && (#[trigger] records[j]).name == wanted[i];
        lemma_means(requests[i], records[j].name);
        assert(p(records[j]));
        lemma_filter_keeps(records, p, j);
        let k = choose|k: int| 0 <= k < chosen.len() && chosen[k] == records[j];
        assert(plan[k].0 == records[j]);
        assert(means(requests[i], plan[k].0.name));
    }
}

proof fn lemma_filter_keeps(records: Seq<RecordModel>, p: spec_fn(RecordModel) -> bool, j: int)
    requires
        0 <= j < records.len(),
        p(records[j]),
    ensures
        exists|k: int| 0 <= k < records.filter(p).len() && records.filter(p)[k] == records[j],
    decreases records.len(),
{
    reveal(Seq::filter);
    let rest = records.drop_last();
    let found = rest.filter(p);
    let all = records.filter(p);
    if j < rest.len() {
        lemma_filter_keeps(rest, p, j);
        let k = choose|k: int| 0 <= k < found.len() && found[k] == rest[j];
        assert(all[k] == records[j]);
    } else {
        assert(all == found.push(records[j]));
        assert(all[found.len() as int] == records[j]);
    }
}

/// A request that names no image is refused, and so is one whose name no file can
/// have; nothing is unpacked then.
pub proof fn law_requests_without_images_are_refused(
    data: Seq<u8>,
    total: Option<u64>,
    out: Seq<char>,
    requests: Seq<Seq<char>>,
    i: int,
)
    requires
        0 <= i < requests.len(),
        records_of(data, total) matches Ok(records) ==> forall|k: int|
            0 <= k < records.len() ==> !means(requests[i], (#[trigger] records[k]).name),
    ensures
        unpacked(data, total, out, requests) is Err,
{
    let n = requests.len() as int;
    if let Ok(wanted) = selection(requests, n) {
        lemma_selected(requests, n);
        if let Ok(records) = records_of(data, total) {
            if has_name(records, wanted[i]) {
                let j = choose|j: int|
                    0 <= j < records.len() && (#[trigger] records[j]).name == wanted[i];
                lemma_means(requests[i], records[j].name);
            }
        }
    }
}

// ---------------------------------------------------------------------------
// Laws on headers
// ---------------------------------------------------------------------------

/// True when the four bytes that every header starts with stand at a place.
pub open spec fn is_marked(data: Seq<u8>, at: int) -> bool {
    &&& 0 <= at
    &&& at + 4 <= data.len()
    &&& data[at] == 0x55
    &&& data[at + 1] == 0xaa
    &&& data[at + 2] == 0x5a
    &&& data[at + 3] == 0xa5
}

proof fn lemma_marked(data: Seq<u8>, at: int)
    ensures
        bytes::stands_at(data, at, magic()) <==> is_marked(data, at),
{
    if is_marked(data, at) {
        assert(data.subrange(at, at + 4) =~= magic());
    }
    if bytes::stands_at(data, at, magic()) {
        let part = data.subrange(at, at + 4);
        assert(part[0] == data[at] && part[1] == data[at + 1]);
        assert(part[2] == data[at + 2] && part[3] == data[at + 3]);
    }
}

/// The length of a name: up to its first zero byte, and sixteen bytes at most.
pub open spec fn is_name_length(data: Seq<u8>, h: int, n: int) -> bool {
    &&& 0 <= n <= 16
    &&& n < 16 ==> data[h + 60 + n] == 0
    &&& forall|k: int| 0 <= k < n ==> #[trigger] data[h + 60 + k] != 0
}

/// True when an image is the one whose header stands at its place: the size of
/// the header stands four bytes behind its start, that of the data 24 bytes
/// behind it, and the name, in small letters, 60 bytes behind it. The data
/// follows the header.
pub open spec fn is_headed(data: Seq<u8>, r: RecordModel, i: int) -> bool {
    let h = r.header_offset;
    &&& r.index == i
    &&& h % 4 == 0
    &&& is_marked(data, h)
    &&& r.header_size == bytes::le32(data, h + 4)
    &&& 98 <= r.header_size <= 0x40_0000
    &&& r.size == bytes::le32(data, h + 24)
    &&& r.data_offset == h + r.header_size
    &&& r.data_offset + r.size <= data.len()
    &&& r.header == data.subrange(h, h + 98)
    &&& r.checksum == data.subrange(h + 98, h + r.header_size)
    &&& r.name.len() > 0
    &&& is_name_length(data, h, r.name.len() as int)
    &&& forall|k: int|
        0 <= k < r.name.len() ==> (#[trigger] r.name[k]) as int == small_letter(
            data[h + 60 + k] as int,
        )
    &&& exists|number: int| number >= 1 && r.output_name == #[trigger] file_name(r.name, number)
}

/// A byte, as a small letter where it is a capital one.
pub open spec fn small_letter(b: int) -> int {
    if 65 <= b <= 90 {
        b + 32
    } else {
        b
    }
}

/// The file name of an image: its name, with a number where it is not the first
/// one of that name, and the suffix of images.
pub open spec fn file_name(name: Seq<char>, number: int) -> Seq<char> {
    if number == 1 {
        name + ".img"@
    } else {
        name + "_"@ + text::decimal(number as nat) + ".img"@
    }
}

/// True when no header stands at a whole word from `from` up to `to`.
pub open spec fn is_unmarked(data: Seq<u8>, from: int, to: int) -> bool {
    forall|q: int| from <= q < to && q % 4 == 0 ==> !(#[trigger] is_marked(data, q))
}

/// True when the images are all that there are up to a place.
pub open spec fn are_all_up_to(data: Seq<u8>, records: Seq<RecordModel>, end: int) -> bool {
    &&& forall|i: int| 0 <= i < records.len() ==> is_headed(data, #[trigger] records[i], i)
    &&& leave_no_header_out(data, records, end)
}

/// True when no header stands before, between or behind the images, up to a
/// place.
pub open spec fn leave_no_header_out(data: Seq<u8>, records: Seq<RecordModel>, end: int) -> bool {
    &&& records.len() == 0 ==> is_unmarked(data, 0, end)
    &&& records.len() > 0 ==> is_unmarked(data, 0, records[0].header_offset) && is_unmarked(
        data,
        records.last().data_offset + records.last().size,
        end,
    )
    &&& forall|i: int|
        0 < i < records.len() ==> is_unmarked(
            data,
            records[i - 1].data_offset + records[i - 1].size,
            (#[trigger] records[i]).header_offset,
        )
}

proof fn lemma_scan_unmarked(data: Seq<u8>, start: int, at: int)
    requires
        0 <= start <= at,
        start % 4 == 0 || start == data.len(),
        at % 4 == start % 4,
        is_unmarked(data, start, at),
    ensures
        match scan_from(data, start, at) {
            Ok(Some(found)) => {
                &&& is_marked(data, found - 4)
                &&& (found - 4) % 4 == 0
                &&& start <= found - 4
                &&& is_unmarked(data, start, found - 4)
            },
            Ok(None) => is_unmarked(data, start, data.len() as int),
            Err(_) => true,
        },
    decreases data.len() - at,
{
    if at + 4 <= data.len() {
        lemma_marked(data, at);
        if !bytes::stands_at(data, at, magic()) {
            assert forall|q: int| start <= q < at + 4 && q % 4 == 0 implies !(
            #[trigger] is_marked(data, q)) by {
                if q >= at {
                    assert(q == at);
                }
            }
            if at + 4 - start <= MAX_SCAN_LEN {
                lemma_scan_unmarked(data, start, at + 4);
            }
        }
    }
}

proof fn lemma_name_bytes(raw: Seq<u8>, from: int)
    requires
        0 <= from <= raw.len(),
    ensures
        ({
            let name = name_bytes(raw, from);
            &&& from + name.len() <= raw.len()
            &&& from + name.len() < raw.len() ==> raw[from + name.len()] == 0
            &&& forall|k: int|
                0 <= k < name.len() ==> #[trigger] name[k] == raw[from + k] && raw[from + k] != 0
        }),
    decreases raw.len() - from,
{
    if from < raw.len() && raw[from] != 0 {
        lemma_name_bytes(raw, from + 1);
        let rest = name_bytes(raw, from + 1);
        let name = name_bytes(raw, from);
        assert forall|k: int| 0 <= k < name.len() implies #[trigger] name[k] == raw[from + k]
            && raw[from + k] != 0 by {
            if k > 0 {
                assert(name[k] == rest[k - 1]);
                assert(raw[from + 1 + (k - 1)] == raw[from + k]);
            }
        }
    }
}

proof fn lemma_header_name(data: Seq<u8>, h: int)
    requires
        0 <= h,
        h + 98 <= data.len(),
    ensures
        ({
            let name = name_of(data.subrange(h, h + 98));
            &&& is_name_length(data, h, name.len() as int)
            &&& forall|k: int|
                0 <= k < name.len() ==> (#[trigger] name[k]) as int == small_letter(
                    data[h + 60 + k] as int,
                )
        }),
{
    let header = data.subrange(h, h + 98);
    let raw = header.subrange(60, 76);
    let stored = name_bytes(raw, 0);
    let name = name_of(header);
    lemma_name_bytes(raw, 0);
    assert forall|k: int| 0 <= k < 16 implies #[trigger] raw[k] == data[h + 60 + k] by {}
    assert(name.len() == stored.len());
    assert forall|k: int| 0 <= k < name.len() implies #[trigger] data[h + 60 + k] != 0 by {
        assert(stored[k] == raw[0 + k]);
    }
    if name.len() < 16 {
        assert(raw[0 + name.len() as int] == 0);
    }
    assert forall|k: int| 0 <= k < name.len() implies (#[trigger] name[k]) as int == small_letter(
        data[h + 60 + k] as int,
    ) by {
        assert(stored[k] == raw[0 + k]);
        let c = stored[k] as char;
        assert(name[k] == text::lowered_char(c));
    }
}

/// What was read of the image whose header stands at `h`.
#[verifier::rlimit(40)]
#[verifier::spinoff_prover]
proof fn lemma_new_record(data: Seq<u8>, total: Option<u64>, s: WalkState, h: int)
    requires
        0 <= h,
        h % 4 == 0,
        is_marked(data, h),
        s.numbers.len() == s.records.len(),
        forall|i: int| 0 <= i < s.numbers.len() ==> #[trigger] s.numbers[i] >= 1,
        with_record(data, total, s, h) is Ok,
    ensures
        ({
            let next = with_record(data, total, s, h)->Ok_0;
            let r = next.records.last();
            let end = r.data_offset + r.size;
            &&& next.records == s.records.push(r)
            &&& next.numbers == s.numbers.push(next.numbers.last())
            &&& next.numbers.last() >= 1
            &&& is_headed(data, r, s.records.len() as int)
            &&& r.header_offset == h
            &&& end <= next.offset < end + 4
            &&& next.offset % 4 == 0 || next.offset == data.len()
        }),
{
    reveal(with_record);
    let next = with_record(data, total, s, h)->Ok_0;
    let n = s.records.len() as int;
    let r = next.records[n];
    let number = number_at(data, s, h);
    let header = data.subrange(h, h + FIXED_HEADER_LEN);
    let previous = last_number(s.records, s.numbers, name_of(header), n);
    lemma_header_name(data, h);
    lemma_last_number(s.records, s.numbers, name_of(header), n);
    lemma_number_free(output_names(s.records), name_of(header), previous);
    assert(is_next_number(output_names(s.records), name_of(header), previous, number));
    assert(r.output_name == file_name(r.name, number));
    assert(name_error(r.name) is None);
    assert(r.name.len() > 0);
}

proof fn lemma_unmarked_on(data: Seq<u8>, a: int, b: int, c: int)
    requires
        is_unmarked(data, a, b),
        is_unmarked(data, b, c),
    ensures
        is_unmarked(data, a, c),
{
}

/// One image more leaves no header out.
proof fn lemma_one_more(data: Seq<u8>, records: Seq<RecordModel>, offset: int, r: RecordModel, next: int)
    requires
        leave_no_header_out(data, records, offset),
        is_unmarked(data, offset, r.header_offset),
        r.data_offset + r.size <= next < r.data_offset + r.size + 4,
        next % 4 == 0 || next == data.len(),
    ensures
        leave_no_header_out(data, records.push(r), next),
{
    let n = records.len() as int;
    let h = r.header_offset;
    let all = records.push(r);
    let end = r.data_offset + r.size;
    assert(is_unmarked(data, end, next));
    let from = if n == 0 {
        0
    } else {
        records.last().data_offset + records.last().size
    };
    lemma_unmarked_on(data, from, offset, h);
    assert forall|i: int| 0 < i < all.len() implies is_unmarked(
        data,
        all[i - 1].data_offset + all[i - 1].size,
        (#[trigger] all[i]).header_offset,
    ) by {
        assert(all[i - 1] == records[i - 1]);
        if i < n {
            assert(all[i] == records[i]);
        }
    }
    if n > 0 {
        assert(all[0] == records[0]);
    }
}

proof fn lemma_record_headed(data: Seq<u8>, total: Option<u64>, s: WalkState, h: int)
    requires
        0 <= s.offset <= h,
        h % 4 == 0,
        is_marked(data, h),
        s.numbers.len() == s.records.len(),
        forall|i: int| 0 <= i < s.numbers.len() ==> #[trigger] s.numbers[i] >= 1,
        are_all_up_to(data, s.records, s.offset),
        is_unmarked(data, s.offset, h),
        with_record(data, total, s, h) is Ok,
    ensures
        ({
            let next = with_record(data, total, s, h)->Ok_0;
            &&& next.offset % 4 == 0 || next.offset == data.len()
            &&& next.numbers.len() == next.records.len()
            &&& forall|i: int| 0 <= i < next.numbers.len() ==> #[trigger] next.numbers[i] >= 1
            &&& are_all_up_to(data, next.records, next.offset)
        }),
{
    let next = with_record(data, total, s, h)->Ok_0;
    let n = s.records.len() as int;
    lemma_new_record(data, total, s, h);
    lemma_one_more(data, s.records, s.offset, next.records.last(), next.offset);
    assert forall|i: int| 0 <= i < next.records.len() implies is_headed(
        data,
        #[trigger] next.records[i],
        i,
    ) by {
        if i < n {
            assert(next.records[i] == s.records[i]);
        }
    }
}

proof fn lemma_last_number(
    records: Seq<RecordModel>,
    numbers: Seq<int>,
    name: Seq<char>,
    n: int,
)
    requires
        0 <= n <= records.len(),
        records.len() == numbers.len(),
        forall|i: int| 0 <= i < numbers.len() ==> #[trigger] numbers[i] >= 1,
    ensures
        last_number(records, numbers, name, n) >= 0,
    decreases n,
{
    if n > 0 {
        lemma_last_number(records, numbers, name, n - 1);
    }
}

proof fn lemma_walk_headed(data: Seq<u8>, total: Option<u64>, s: WalkState)
    requires
        0 <= s.offset <= data.len(),
        s.offset % 4 == 0 || s.offset == data.len(),
        s.numbers.len() == s.records.len(),
        forall|i: int| 0 <= i < s.numbers.len() ==> #[trigger] s.numbers[i] >= 1,
        are_all_up_to(data, s.records, s.offset),
        walk(data, total, s) is Ok,
    ensures
        are_all_up_to(data, walk(data, total, s)->Ok_0, data.len() as int),
        walk(data, total, s)->Ok_0.len() > 0,
    decreases data.len() - s.offset,
{
    lemma_scan_unmarked(data, s.offset, s.offset);
    match scan_from(data, s.offset, s.offset) {
        Ok(Some(at)) => {
            lemma_scan(data, s.offset, s.offset);
            lemma_with_record(data, total, s, at - 4);
            lemma_record_headed(data, total, s, at - 4);
            lemma_walk_headed(data, total, with_record(data, total, s, at - 4)->Ok_0);
        },
        _ => {
            if s.records.len() > 0 {
                let from = s.records.last().data_offset + s.records.last().size;
                assert forall|q: int| from <= q < data.len() && q % 4 == 0 implies !(
                #[trigger] is_marked(data, q)) by {
                    if q < s.offset {
                        assert(is_unmarked(data, from, s.offset));
                    } else {
                        assert(is_unmarked(data, s.offset, data.len() as int));
                    }
                }
            }
        },
    }
}

/// The images of a package are those whose headers stand in it, at whole words,
/// and no header before, between or behind their data is passed over. What is
/// known of an image is what its header states.
pub proof fn law_images_are_read_from_their_headers(data: Seq<u8>, total: Option<u64>)
    requires
        records_of(data, total) is Ok,
    ensures
        records_of(data, total)->Ok_0.len() > 0,
        are_all_up_to(data, records_of(data, total)->Ok_0, data.len() as int),
{
    let s = WalkState { offset: 0, metadata: 0, records: seq![], numbers: seq![] };
    lemma_walk_headed(data, total, s);
}

/// The file of an image has the name of the image and the suffix of images, where
/// no image before it has that name or that file.
pub proof fn law_first_images_keep_their_name(
    data: Seq<u8>,
    total: Option<u64>,
    s: WalkState,
    h: int,
)
    requires
        with_record(data, total, s, h) is Ok,
        ({
            let name = with_record(data, total, s, h)->Ok_0.records.last().name;
            forall|i: int|
                0 <= i < s.records.len() ==> (#[trigger] s.records[i]).name != name
                    && s.records[i].output_name != name + ".img"@
        }),
    ensures
        ({
            let r = with_record(data, total, s, h)->Ok_0.records.last();
            r.output_name == r.name + ".img"@
        }),
{
    reveal(with_record);
    let r = with_record(data, total, s, h)->Ok_0.records.last();
    let n = s.records.len() as int;
    lemma_unused_name(s.records, s.numbers, r.name, n);
    let taken = output_names(s.records);
    if taken.contains(r.name + ".img"@) {
        let i = choose|i: int| 0 <= i < taken.len() && taken[i] == r.name + ".img"@;
        assert(s.records[i].output_name == r.name + ".img"@);
    }
    assert(is_next_number(taken, r.name, 0, 1));
    lemma_next_number(taken, r.name, 0, 1);
}

proof fn lemma_unused_name(
    records: Seq<RecordModel>,
    numbers: Seq<int>,
    name: Seq<char>,
    n: int,
)
    requires
        0 <= n <= records.len(),
        forall|i: int| 0 <= i < records.len() ==> (#[trigger] records[i]).name != name,
    ensures
        last_number(records, numbers, name, n) == 0,
    decreases n,
{
    if n > 0 {
        assert(records[n - 1].name != name);
        lemma_unused_name(records, numbers, name, n - 1);
    }
}

// ---------------------------------------------------------------------------
// Laws on names and archives
// ---------------------------------------------------------------------------

/// A name that is accepted can be that of a file everywhere: it has printable
/// ASCII characters alone, none that parts or describes paths, it does not end
/// with a dot, and it is not the name of a device.
pub proof fn law_accepted_names_are_plain(name: Seq<char>, i: int)
    requires
        name_error(name) is None,
    ensures
        name.len() > 0,
        name != "."@,
        name != ".."@,
        name.last() != '.',
        0 <= i < name.len() ==> 33 <= name[i] as int <= 126 && name[i] != '/' && name[i] != '\\'
            && name[i] != ':' && name[i] != '*' && name[i] != '?' && name[i] != '"' && name[i] != '<'
            && name[i] != '>' && name[i] != '|',
{
    if 0 <= i < name.len() {
        assert(is_name_char(name[i]));
        assert(name.contains(name[i]));
    }
}

/// The package of an archive is its one entry of that name that is no directory,
/// where no entry leaves the archive.
pub proof fn law_archives_hold_one_package(entries: Seq<ArchiveEntry>, n: int)
    requires
        0 <= n <= entries.len(),
    ensures
        match package_entry(entries, n) {
            Ok(Some(found)) => {
                &&& 0 <= found < n
                &&& is_package_entry(entries[found])
                &&& forall|i: int|
                    0 <= i < n ==> (#[trigger] entries[i]).enclosed && (is_package_entry(
                        entries[i],
                    ) ==> i == found)
            },
            Ok(None) => forall|i: int|
                0 <= i < n ==> (#[trigger] entries[i]).enclosed && !is_package_entry(entries[i]),
            Err(error) => {
                ||| error == PackageError::UnsafeEntry && exists|i: int|
                    0 <= i < n && !(#[trigger] entries[i]).enclosed
                ||| error == PackageError::SeveralPackages && exists|i: int, j: int|
                    0 <= i < j < n && is_package_entry(#[trigger] entries[i]) && is_package_entry(
                        #[trigger] entries[j],
                    )
            },
        },
    decreases n,
{
    if n > 0 {
        law_archives_hold_one_package(entries, n - 1);
        let last = entries[n - 1];
        if let Ok(Some(found)) = package_entry(entries, n - 1) {
            assert(is_package_entry(entries[found]));
        }
    }
}

/// A request means the name of an image in small letters, with or without the suffix
/// of image files.
pub proof fn law_requests_mean_names(name: Seq<char>)
    ensures
        requested_name(name + seq!['.', 'i', 'm', 'g']) == text::lowered(name),
        !text::ends_with(text::lowered(name), ".img"@) ==> requested_name(name) == text::lowered(
            name,
        ),
{
    reveal_strlit(".img");
    let all = name + seq!['.', 'i', 'm', 'g'];
    let small = text::lowered(all);
    let n = name.len() as int;
    assert(small.skip(n) =~= ".img"@);
    assert(small.take(n) =~= text::lowered(name));
}

/// Requests are taken in their order, each of them by the name that it means; one
/// with a name that no image can have is refused.
pub proof fn law_requests_are_taken_in_order(requests: Seq<Seq<char>>, n: int)
    requires
        0 < n <= requests.len(),
        selection(requests, n - 1) is Ok,
    ensures
        ({
            let before = selection(requests, n - 1)->Ok_0;
            let name = requested_name(requests[n - 1]);
            match name_error(name) {
                None => selection(requests, n) == Ok::<Seq<Seq<char>>, PackageError>(
                    before.push(name),
                ),
                Some(error) => selection(requests, n) == Err::<Seq<Seq<char>>, PackageError>(error),
            }
        }),
{
}

/// A name is accepted where it is not empty, has only printable characters that file
/// names may have on every system, does not end with a dot, and is none that a device
/// has before its first dot; for these reasons only.
pub proof fn law_plain_names_are_accepted(name: Seq<char>)
    ensures
        name_error(name) is None <==> {
            let stem = text::lowered(text::split(name, '.')[0]);
            &&& name.len() > 0 && name.last() != '.'
            &&& forall|i: int|
                #![trigger name[i]]
                0 <= i < name.len() ==> 33 <= name[i] as int <= 126 && name[i] != '/' && name[i]
                    != '\\' && name[i] != ':' && name[i] != '*' && name[i] != '?' && name[i] != '"'
                    && name[i] != '<' && name[i] != '>' && name[i] != '|'
            &&& stem != seq!['c', 'o', 'n'] && stem != seq!['p', 'r', 'n']
            &&& stem != seq!['a', 'u', 'x'] && stem != seq!['n', 'u', 'l']
            &&& !(stem.len() == 4 && '1' <= stem[3] <= '9' && (stem.take(3) == seq!['c', 'o', 'm']
                || stem.take(3) == seq!['l', 'p', 't']))
        },
{
    reveal_strlit("con");
    reveal_strlit("prn");
    reveal_strlit("aux");
    reveal_strlit("nul");
    reveal_strlit("com");
    reveal_strlit("lpt");
    reveal_strlit(".");
    reveal_strlit("..");
    assert("con"@ =~= seq!['c', 'o', 'n']);
    assert("prn"@ =~= seq!['p', 'r', 'n']);
    assert("aux"@ =~= seq!['a', 'u', 'x']);
    assert("nul"@ =~= seq!['n', 'u', 'l']);
    assert("com"@ =~= seq!['c', 'o', 'm']);
    assert("lpt"@ =~= seq!['l', 'p', 't']);
    assert("."@.last() == '.' && ".."@.last() == '.');
    let plain = forall|i: int|
        #![trigger name[i]]
        0 <= i < name.len() ==> 33 <= name[i] as int <= 126 && name[i] != '/' && name[i] != '\\'
            && name[i] != ':' && name[i] != '*' && name[i] != '?' && name[i] != '"' && name[i] != '<'
            && name[i] != '>' && name[i] != '|';
    if plain {
        assert forall|c: char| c == '/' || c == '\\' || c == '\0' implies !(#[trigger] name.contains(
            c,
        )) by {
            if name.contains(c) {
                let i = choose|i: int| 0 <= i < name.len() && name[i] == c;
                assert(name[i] == c);
            }
        }
        assert forall|i: int| 0 <= i < name.len() implies is_name_char(#[trigger] name[i]) by {}
    }
    if names::is_simple(name) && (forall|i: int|
        0 <= i < name.len() ==> is_name_char(#[trigger] name[i])) {
        assert forall|i: int|
            #![trigger name[i]]
            0 <= i < name.len() implies 33 <= name[i] as int <= 126 && name[i] != '/' && name[i]
            != '\\' && name[i] != ':' && name[i] != '*' && name[i] != '?' && name[i] != '"' && name[i]
            != '<' && name[i] != '>' && name[i] != '|' by {
            assert(is_name_char(name[i]));
            assert(name.contains(name[i]));
        }
    }
}

/// Data may be a package where a header stands at a whole word of its first mebibyte,
/// or right behind that.
pub proof fn law_packages_are_probed(data: Seq<u8>)
    ensures
        probes(data) <==> exists|at: int|
            0 <= at <= 1_048_576 && at % 4 == 0 && #[trigger] is_marked(data, at),
{
    if probes(data) {
        let i = choose|i: int|
            0 <= i <= MAX_SCAN_LEN / 4 && #[trigger] bytes::stands_at(data, 4 * i, magic());
        lemma_marked(data, 4 * i);
        assert(is_marked(data, 4 * i));
    }
    if exists|at: int| 0 <= at <= 1_048_576 && at % 4 == 0 && #[trigger] is_marked(data, at) {
        let at = choose|at: int|
            0 <= at <= 1_048_576 && at % 4 == 0 && #[trigger] is_marked(data, at);
        lemma_marked(data, at);
        assert(4 * (at / 4) == at);
        assert(bytes::stands_at(data, 4 * (at / 4), magic()));
    }
}

} // verus!
