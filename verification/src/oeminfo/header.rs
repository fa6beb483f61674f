//! The headers of OEMINFO blocks.

use vstd::prelude::*;

use crate::bytes;

verus! {

pub const OEMINFO_MAGIC: [u8; 8] = [0x4f, 0x45, 0x4d, 0x5f, 0x49, 0x4e, 0x46, 0x4f];

pub const OEMINFO_HEADER_SIZE: usize = 0x20;

pub const OEMINFO_REUSED_HEADER_SIZE: usize = 0x40;

pub const OEMINFO_STANDARD_HEADER_SIZE: usize = 0x200;

pub const OEMINFO_STANDARD_ALIGNMENT: usize = 0x1000;

pub const OEMINFO_REUSED_ALIGNMENT: usize = 0x80;

pub const OEMINFO_MAX_AGE: u32 = 0x3b9a_c9ff;

pub const MAX_PLAUSIBLE_VERSION: u32 = 0x1_0000;

const PROBE_CHUNK_SIZE: usize = 0x20_0000;

const PROBE_SCAN_LIMIT: u64 = 0x400_0000;

const PROBE_OVERLAP: usize = 0x1ff;

#[derive(Debug, Clone, Copy, PartialEq, Eq, Structural)]
pub enum OemInfoLayout {
    Standard,
    StandardCompact,
    Reused,
}

impl OemInfoLayout {
    /// The name under which a layout is listed.
    pub open spec fn listed(self) -> Seq<char> {
        match self {
            OemInfoLayout::Standard => "STANDARD"@,
            OemInfoLayout::StandardCompact => "STANDARD_COMPACT"@,
            OemInfoLayout::Reused => "REUSED"@,
        }
    }

    pub fn name(self) -> (name: &'static str)
        ensures
            name@ == self.listed(),
    {
        match self {
            OemInfoLayout::Standard => "STANDARD",
            OemInfoLayout::StandardCompact => "STANDARD_COMPACT",
            OemInfoLayout::Reused => "REUSED",
        }
    }

    /// The size of the header that a layout has.
    pub open spec fn header_len(self) -> int {
        match self {
            OemInfoLayout::Standard | OemInfoLayout::StandardCompact => 0x200,
            OemInfoLayout::Reused => 0x40,
        }
    }

    pub fn header_size(self) -> (size: usize)
        ensures
            size == self.header_len(),
    {
        match self {
            OemInfoLayout::Standard | OemInfoLayout::StandardCompact => OEMINFO_STANDARD_HEADER_SIZE,
            OemInfoLayout::Reused => OEMINFO_REUSED_HEADER_SIZE,
        }
    }
}

/// The header of a block, and where it stands in the image.
#[derive(Debug, Clone, Copy, PartialEq, Eq, Structural)]
pub struct BlockHeader {
    pub offset: usize,
    pub version: u32,
    pub id: u32,
    pub sub_id: u32,
    pub length: u32,
    pub age: u32,
    pub header_size: usize,
    pub layout: OemInfoLayout,
    pub header_padding_byte: u8,
}

impl BlockHeader {
    /// Where the payload starts.
    pub open spec fn payload_start(self) -> int {
        self.offset + self.header_size
    }

    /// Where the payload ends.
    pub open spec fn end(self) -> int {
        self.offset + self.header_size + self.length
    }

    /// A header whose size is that of its layout and whose block lies within
    /// an image of `size` bytes.
    pub open spec fn fits(self, size: int) -> bool {
        &&& self.header_size == self.layout.header_len()
        &&& self.length > 0
        &&& self.end() <= size
    }
}

/// The byte that all of `s` is, if it is one.
pub open spec fn uniform(s: Seq<u8>) -> Option<u8> {
    if s.len() > 0 && bytes::all_equal(s, s[0]) {
        Some(s[0])
    } else {
        None
    }
}

pub fn uniform_byte(data: &[u8]) -> (byte: Option<u8>)
    ensures
        byte == uniform(data@),
{
    if data.len() > 0 && bytes::is_filled(data, data[0]) {
        Some(data[0])
    } else {
        None
    }
}

/// The first value that is there.
pub open spec fn either(a: Option<u8>, b: Option<u8>) -> Option<u8> {
    if a is Some {
        a
    } else {
        b
    }
}

pub fn first_of(a: Option<u8>, b: Option<u8>) -> (c: Option<u8>)
    ensures
        c == either(a, b),
{
    match a {
        Some(byte) => Some(byte),
        None => b,
    }
}

/// How many zero bytes `s` begins with.
pub open spec fn zero_run(s: Seq<u8>) -> int
    decreases s.len(),
{
    if s.len() > 0 && s[0] == 0 {
        1 + zero_run(s.skip(1))
    } else {
        0
    }
}

fn count_zero_run(data: &[u8]) -> (count: usize)
    ensures
        count == zero_run(data@),
        count <= data@.len(),
{
    let mut i: usize = 0;
    assert(data@.skip(0) == data@);
    while i < data.len() && data[i] == 0
        invariant
            i <= data@.len(),
            zero_run(data@) == i + zero_run(data@.skip(i as int)),
        decreases data@.len() - i,
    {
        assert(data@.skip(i as int).skip(1) == data@.skip(i + 1));
        i += 1;
    }
    i
}

/// The padding of a standard header at `offset`: the bytes from 0x20 up to
/// 0x200 are one and the same, or up to sixteen zeros and then 0xff.
pub open spec fn padding_at(raw: Seq<u8>, offset: int) -> Option<u8> {
    if offset + 0x200 > raw.len() {
        None
    } else {
        let fields = uniform(raw.subrange(offset + 28, offset + 32));
        let short = uniform(raw.subrange(offset + 0x20, offset + 0x40));
        let expected = match either(short, fields) {
            Some(byte) => byte,
            None => 0xff,
        };
        let tail = raw.subrange(offset + 0x20, offset + 0x200);
        let zeros = zero_run(tail);
        if bytes::all_equal(tail, expected) {
            Some(expected)
        } else if zeros < tail.len() && zeros <= 0x10 && uniform(tail.skip(zeros)) == Some(0xffu8) {
            Some(0xff)
        } else {
            None
        }
    }
}

pub fn standard_padding(raw: &[u8], offset: usize) -> (padding: Option<u8>)
    ensures
        padding == padding_at(raw@, offset as int),
{
    if raw.len() < OEMINFO_STANDARD_HEADER_SIZE || offset > raw.len()
        - OEMINFO_STANDARD_HEADER_SIZE {
        return None;
    }
    let fields = uniform_byte(&raw[offset + 28..offset + 32]);
    let short = uniform_byte(&raw[offset + 0x20..offset + 0x40]);
    let expected: u8 = match first_of(short, fields) {
        Some(byte) => byte,
        None => 0xff,
    };
    let tail = &raw[offset + 0x20..offset + 0x200];
    if bytes::is_filled(tail, expected) {
        return Some(expected);
    }
    let zeros: usize = count_zero_run(tail);
    if zeros < tail.len() && zeros <= 0x10 {
        let rest = &tail[zeros..tail.len()];
        assert(rest@ == tail@.skip(zeros as int));
        if let Some(byte) = uniform_byte(rest) {
            if byte == 0xff {
                return Some(0xff);
            }
        }
    }
    None
}

/// The header of the block at `offset`, if one stands there and its payload
/// lies within the image. A standard header whose payload would not is taken
/// for the short header of a reused block.
pub open spec fn header_at(raw: Seq<u8>, offset: int) -> Option<BlockHeader> {
    let version = bytes::le32(raw, offset + 8);
    let length = bytes::le32(raw, offset + 20);
    let age = bytes::le32(raw, offset + 24);
    let padding = padding_at(raw, offset);
    let fields = uniform(raw.subrange(offset + 28, offset + 32));
    let short = if offset + 0x40 <= raw.len() {
        uniform(raw.subrange(offset + 0x20, offset + 0x40))
    } else {
        None
    };
    let standard = padding is Some && offset + 0x200 + length <= raw.len();
    let header_size: int = if standard {
        0x200
    } else {
        0x40
    };
    if offset + 0x20 <= raw.len() && bytes::stands_at(raw, offset, OEMINFO_MAGIC@) && 0 < version
        <= MAX_PLAUSIBLE_VERSION && length > 0 && age <= OEMINFO_MAX_AGE && offset + header_size
        + length <= raw.len() {
        Some(
            BlockHeader {
                offset: offset as usize,
                version: version as u32,
                id: bytes::le32(raw, offset + 12) as u32,
                sub_id: bytes::le32(raw, offset + 16) as u32,
                length: length as u32,
                age: age as u32,
                header_size: header_size as usize,
                layout: if standard {
                    if offset % 0x1000 == 0 {
                        OemInfoLayout::Standard
                    } else {
                        OemInfoLayout::StandardCompact
                    }
                } else {
                    OemInfoLayout::Reused
                },
                header_padding_byte: match padding {
                    Some(byte) => byte,
                    None => match either(short, fields) {
                        Some(byte) => byte,
                        None => 0,
                    },
                },
            },
        )
    } else {
        None
    }
}

pub fn parse_header(raw: &[u8], offset: usize) -> (header: Option<BlockHeader>)
    ensures
        header == header_at(raw@, offset as int),
        header matches Some(h) ==> h.offset == offset && h.fits(raw@.len() as int),
{
    if raw.len() < OEMINFO_HEADER_SIZE || offset > raw.len() - OEMINFO_HEADER_SIZE
        || !bytes::matches_at(raw, offset, OEMINFO_MAGIC.as_slice()) {
        return None;
    }
    let version: u32 = bytes::read_u32(raw, offset + 8);
    let id: u32 = bytes::read_u32(raw, offset + 12);
    let sub_id: u32 = bytes::read_u32(raw, offset + 16);
    let length: u32 = bytes::read_u32(raw, offset + 20);
    let age: u32 = bytes::read_u32(raw, offset + 24);
    if version == 0 || version > MAX_PLAUSIBLE_VERSION || length == 0 || age > OEMINFO_MAX_AGE {
        return None;
    }
    let fields = uniform_byte(&raw[offset + 28..offset + 32]);
    let room: usize = raw.len() - offset;
    let short = if room >= OEMINFO_REUSED_HEADER_SIZE {
        uniform_byte(&raw[offset + 0x20..offset + 0x40])
    } else {
        None
    };
    let padding = standard_padding(raw, offset);
    let standard = padding.is_some() && length as u64 <= (room - OEMINFO_STANDARD_HEADER_SIZE) as u64;
    if !standard && (room < OEMINFO_REUSED_HEADER_SIZE || length as u64 > (room
        - OEMINFO_REUSED_HEADER_SIZE) as u64) {
        return None;
    }
    let header_padding_byte: u8 = match padding {
        Some(byte) => byte,
        None => match first_of(short, fields) {
            Some(byte) => byte,
            None => 0,
        },
    };
    let layout = if standard {
        if offset % OEMINFO_STANDARD_ALIGNMENT == 0 {
            OemInfoLayout::Standard
        } else {
            OemInfoLayout::StandardCompact
        }
    } else {
        OemInfoLayout::Reused
    };
    Some(
        BlockHeader {
            offset,
            version,
            id,
            sub_id,
            length,
            age,
            header_size: if standard {
                OEMINFO_STANDARD_HEADER_SIZE
            } else {
                OEMINFO_REUSED_HEADER_SIZE
            },
            layout,
            header_padding_byte,
        },
    )
}

/// The places from `from` on where the magic stands, none overlapping.
pub open spec fn magic_offsets(raw: Seq<u8>, from: int) -> Seq<int>
    decreases raw.len() - from,
{
    match bytes::first_match(raw, OEMINFO_MAGIC@, from) {
        Some(at) => if from <= at && at + 8 <= raw.len() {
            seq![at] + magic_offsets(raw, at + 8)
        } else {
            seq![]
        },
        None => seq![],
    }
}

/// `first_match` finds a place from `from` on.
proof fn lemma_first_match(s: Seq<u8>, needle: Seq<u8>, from: int)
    ensures
        match bytes::first_match(s, needle, from) {
            Some(at) => from <= at && bytes::stands_at(s, at, needle),
            None => true,
        },
    decreases s.len() - from,
{
    if 0 <= from && from + needle.len() <= s.len() && from < s.len() && !bytes::stands_at(
        s,
        from,
        needle,
    ) {
        lemma_first_match(s, needle, from + 1);
    }
}

/// The magic stands within the image.
pub proof fn lemma_magic_offsets(raw: Seq<u8>, from: int)
    requires
        0 <= from,
    ensures
        forall|k: int|
            0 <= k < magic_offsets(raw, from).len() ==> from <= #[trigger] magic_offsets(
                raw,
                from,
            )[k] < raw.len(),
    decreases raw.len() - from,
{
    match bytes::first_match(raw, OEMINFO_MAGIC@, from) {
        Some(at) => {
            if from <= at && at + 8 <= raw.len() {
                lemma_magic_offsets(raw, at + 8);
                let rest = magic_offsets(raw, at + 8);
                let all = magic_offsets(raw, from);
                assert forall|k: int| 0 <= k < all.len() implies from <= #[trigger] all[k]
                    < raw.len() by {
                    if k > 0 {
                        assert(all[k] == rest[k - 1]);
                    }
                }
            }
        },
        None => {},
    }
}

/// The positions of a list of them.
pub open spec fn positions(list: Seq<usize>) -> Seq<int> {
    list.map_values(|at: usize| at as int)
}

/// True when each position comes after the one before.
pub open spec fn increasing(list: Seq<usize>) -> bool {
    forall|i: int, j: int| 0 <= i < j < list.len() ==> list[i] < list[j]
}

pub fn find_magic_offsets(raw: &[u8]) -> (offsets: Vec<usize>)
    ensures
        positions(offsets@) == magic_offsets(raw@, 0),
        increasing(offsets@),
        forall|i: int| 0 <= i < offsets@.len() ==> #[trigger] offsets@[i] + 8 <= raw@.len(),
{
    let mut offsets: Vec<usize> = Vec::new();
    let mut cursor: usize = 0;
    assert(positions(offsets@) + magic_offsets(raw@, 0) =~= magic_offsets(raw@, 0));
    loop
        invariant
            cursor <= raw@.len(),
            positions(offsets@) + magic_offsets(raw@, cursor as int) == magic_offsets(raw@, 0),
            increasing(offsets@),
            forall|i: int| 0 <= i < offsets@.len() ==> #[trigger] offsets@[i] + 8 <= cursor,
        decreases raw@.len() - cursor,
    {
        proof {
            lemma_first_match(raw@, OEMINFO_MAGIC@, cursor as int);
            assert(OEMINFO_MAGIC@.len() == 8);
            assert(raw.len() <= usize::MAX);
        }
        match bytes::find_bytes(raw, OEMINFO_MAGIC.as_slice(), cursor) {
            None => {
                assert(positions(offsets@) + Seq::<int>::empty() =~= positions(offsets@));
                return offsets;
            },
            Some(at) => {
                let ghost before = offsets@;
                offsets.push(at);
                proof {
                    assert(positions(offsets@) =~= positions(before) + seq![at as int]);
                    assert(positions(before) + (seq![at as int] + magic_offsets(raw@, at + 8))
                        =~= positions(offsets@) + magic_offsets(raw@, at + 8));
                }
                cursor = at + 8;
            },
        }
    }
}

// ---------------------------------------------------------------------------
// Probing a file
// ---------------------------------------------------------------------------

/// True when the header at `offset` of a window looks like that of a block
/// that ends within a file of `file_size` bytes; the window's header stands at
/// `absolute` in the file.
pub open spec fn looks_like_block(window: Seq<u8>, offset: int, absolute: int, file_size: int) -> bool {
    let version = bytes::le32(window, offset + 8);
    let length = bytes::le32(window, offset + 20);
    let fields = uniform(window.subrange(offset + 28, offset + 32));
    let tail = uniform(window.subrange(offset + 0x20, offset + 0x40));
    let header_size: int = if padding_at(window, offset) is Some {
        0x200
    } else {
        0x40
    };
    &&& offset + 0x40 <= window.len()
    &&& 0 < version <= MAX_PLAUSIBLE_VERSION
    &&& length > 0
    &&& bytes::le32(window, offset + 24) <= OEMINFO_MAX_AGE
    &&& fields is Some
    &&& fields == tail
    &&& absolute + header_size + length <= file_size
}

pub fn probe_header(window: &[u8], offset: usize, absolute_offset: u64, file_size: u64) -> (is: bool)
    ensures
        is == looks_like_block(
            window@,
            offset as int,
            absolute_offset as int,
            file_size as int,
        ),
{
    if window.len() < OEMINFO_REUSED_HEADER_SIZE || offset > window.len()
        - OEMINFO_REUSED_HEADER_SIZE {
        return false;
    }
    let version: u32 = bytes::read_u32(window, offset + 8);
    let length: u32 = bytes::read_u32(window, offset + 20);
    let age: u32 = bytes::read_u32(window, offset + 24);
    let fields = uniform_byte(&window[offset + 28..offset + 32]);
    let tail = uniform_byte(&window[offset + 0x20..offset + 0x40]);
    if version == 0 || version > MAX_PLAUSIBLE_VERSION || length == 0 || age > OEMINFO_MAX_AGE {
        return false;
    }
    match (fields, tail) {
        (Some(field), Some(rest)) => {
            if field != rest {
                return false;
            }
        },
        _ => {
            return false;
        },
    }
    let header_size: u64 = if standard_padding(window, offset).is_some() {
        0x200
    } else {
        0x40
    };
    absolute_offset <= file_size && header_size + length as u64 <= file_size - absolute_offset
}

/// The part of the file that one read of a probe looks at: a chunk, with what
/// overlaps of the bytes before it.
pub open spec fn probe_window(scanned: Seq<u8>, consumed: int) -> (int, int) {
    let start = if consumed < 0x1ff {
        0
    } else {
        consumed - 0x1ff
    };
    let end = if consumed + 0x20_0000 < scanned.len() {
        consumed + 0x20_0000
    } else {
        scanned.len() as int
    };
    (start, end)
}

/// True when the bytes from `start` up to `end` show a block.
pub open spec fn range_shows_block(scanned: Seq<u8>, start: int, end: int, file_size: int) -> bool {
    let window = scanned.subrange(start, end);
    let offsets = magic_offsets(window, 0);
    exists|i: int|
        0 <= i < offsets.len() && looks_like_block(
            window,
            #[trigger] offsets[i],
            start + offsets[i],
            file_size,
        )
}

/// True when a window from `consumed` on shows a block.
pub open spec fn shows_block(scanned: Seq<u8>, consumed: int, file_size: int) -> bool
    decreases
            if consumed < scanned.len() {
                scanned.len() - consumed
            } else {
                0
            },
{
    if consumed >= scanned.len() {
        false
    } else {
        let (start, end) = probe_window(scanned, consumed);
        range_shows_block(scanned, start, end, file_size) || shows_block(
            scanned,
            consumed + 0x20_0000,
            file_size,
        )
    }
}

fn window_probe(scanned: &[u8], start: usize, end: usize, file_size: u64) -> (is: bool)
    requires
        start <= end <= scanned@.len(),
    ensures
        is == range_shows_block(scanned@, start as int, end as int, file_size as int),
{
    let window = &scanned[start..end];
    let offsets = find_magic_offsets(window);
    let ghost all = magic_offsets(window@, 0);
    let mut i: usize = 0;
    while i < offsets.len()
        invariant
            i <= offsets@.len(),
            start <= end <= scanned@.len(),
            window@ == scanned@.subrange(start as int, end as int),
            all == magic_offsets(window@, 0),
            positions(offsets@) == all,
            forall|k: int| 0 <= k < offsets@.len() ==> #[trigger] offsets@[k] + 8 <= window@.len(),
            forall|k: int|
                0 <= k < i ==> !looks_like_block(
                    window@,
                    #[trigger] all[k],
                    start + all[k],
                    file_size as int,
                ),
        decreases offsets@.len() - i,
    {
        let offset: usize = offsets[i];
        assert(all[i as int] == offset);
        if probe_header(window, offset, (start + offset) as u64, file_size) {
            return true;
        }
        i += 1;
    }
    false
}

/// Looks for a block in the first bytes of a file, as many as a probe scans.
pub fn probe_bytes(scanned: &[u8], file_size: u64) -> (is: bool)
    ensures
        is == (file_size >= 0x40 && shows_block(scanned@, 0, file_size as int)),
{
    if file_size < OEMINFO_REUSED_HEADER_SIZE as u64 {
        return false;
    }
    let mut consumed: usize = 0;
    while consumed < scanned.len()
        invariant
            consumed <= scanned@.len(),
            file_size >= 0x40,
            shows_block(scanned@, 0, file_size as int) == shows_block(
                scanned@,
                consumed as int,
                file_size as int,
            ),
        decreases scanned@.len() - consumed,
    {
        let start: usize = if consumed < PROBE_OVERLAP {
            0
        } else {
            consumed - PROBE_OVERLAP
        };
        let end: usize = if scanned.len() - consumed > PROBE_CHUNK_SIZE {
            consumed + PROBE_CHUNK_SIZE
        } else {
            scanned.len()
        };
        assert(probe_window(scanned@, consumed as int) == (start as int, end as int));
        if window_probe(scanned, start, end, file_size) {
            return true;
        }
        if scanned.len() - consumed <= PROBE_CHUNK_SIZE {
            assert(!shows_block(scanned@, consumed + 0x20_0000, file_size as int));
            return false;
        }
        consumed = end;
    }
    false
}

/// How many bytes of a file a probe scans.
pub fn probe_scan_length(file_size: u64) -> (length: u64)
    ensures
        length == if file_size < 0x400_0000 {
            file_size
        } else {
            0x400_0000
        },
{
    if file_size < PROBE_SCAN_LIMIT {
        file_size
    } else {
        PROBE_SCAN_LIMIT
    }
}

// ---------------------------------------------------------------------------
// What a header says
// ---------------------------------------------------------------------------

/// True when the eight bytes of `OEM_INFO` stand at a place.
pub open spec fn is_marked(raw: Seq<u8>, at: int) -> bool {
    &&& 0 <= at && at + 8 <= raw.len()
    &&& raw[at] == 0x4f && raw[at + 1] == 0x45 && raw[at + 2] == 0x4d && raw[at + 3] == 0x5f
    &&& raw[at + 4] == 0x49 && raw[at + 5] == 0x4e && raw[at + 6] == 0x46 && raw[at + 7] == 0x4f
}

pub(crate) proof fn lemma_marked(raw: Seq<u8>, at: int)
    ensures
        bytes::stands_at(raw, at, OEMINFO_MAGIC@) == is_marked(raw, at),
{
    let magic = OEMINFO_MAGIC@;
    assert(magic.len() == 8);
    assert(magic[0] == 0x4f && magic[1] == 0x45 && magic[2] == 0x4d && magic[3] == 0x5f);
    assert(magic[4] == 0x49 && magic[5] == 0x4e && magic[6] == 0x46 && magic[7] == 0x4f);
    if 0 <= at && at + 8 <= raw.len() {
        let part = raw.subrange(at, at + 8);
        assert(part[0] == raw[at] && part[1] == raw[at + 1] && part[2] == raw[at + 2]);
        assert(part[3] == raw[at + 3] && part[4] == raw[at + 4] && part[5] == raw[at + 5]);
        assert(part[6] == raw[at + 6] && part[7] == raw[at + 7]);
        if is_marked(raw, at) {
            assert(part =~= magic);
        }
    }
}

/// A block starts with `OEM_INFO` and states, in 32 bits each, its version, its id
/// and sub-index, the length of its payload and its age. The version is 1 to 65536,
/// the payload is not empty and ends within the image, and the age has at most nine
/// digits.
pub proof fn law_headers_state_their_block(raw: Seq<u8>, offset: int)
    requires
        offset >= 0,
        raw.len() <= usize::MAX,
    ensures
        header_at(raw, offset) matches Some(h) ==> {
            &&& is_marked(raw, offset)
            &&& h.offset == offset
            &&& h.version == bytes::le32(raw, offset + 8) && 1 <= h.version <= 65_536
            &&& h.id == bytes::le32(raw, offset + 12)
            &&& h.sub_id == bytes::le32(raw, offset + 16)
            &&& h.length == bytes::le32(raw, offset + 20) && h.length >= 1
            &&& h.age == bytes::le32(raw, offset + 24) && h.age <= 999_999_999
            &&& offset + h.header_size + h.length <= raw.len()
            &&& h.layout == OemInfoLayout::Reused ==> h.header_size == 64
            &&& h.layout != OemInfoLayout::Reused ==> h.header_size == 512
            &&& h.layout == OemInfoLayout::Standard ==> offset % 4096 == 0
            &&& h.layout == OemInfoLayout::StandardCompact ==> offset % 4096 != 0
        },
        is_marked(raw, offset) && offset + 64 + bytes::le32(raw, offset + 20) <= raw.len() && 1
            <= bytes::le32(raw, offset + 8) <= 65_536 && bytes::le32(raw, offset + 20) >= 1
            && bytes::le32(raw, offset + 24) <= 999_999_999 ==> {
            &&& header_at(raw, offset) is Some
            &&& header_at(raw, offset)->0.layout != OemInfoLayout::Reused <==> padding_at(
                raw,
                offset,
            ) is Some && offset + 512 + bytes::le32(raw, offset + 20) <= raw.len()
            &&& padding_at(raw, offset) is Some ==> header_at(raw, offset)->0.header_padding_byte
                == padding_at(raw, offset)->0
        },
{
    lemma_marked(raw, offset);
}

/// A standard header is filled from its thirty-third byte to its 512th with one
/// byte, or with at most sixteen zeros and 0xff behind them.
pub proof fn law_standard_headers_are_filled(raw: Seq<u8>, offset: int, byte: u8, zeros: int)
    requires
        0 <= offset,
        offset + 512 <= raw.len(),
        1 <= zeros <= 16,
    ensures
        (forall|i: int| offset + 32 <= i < offset + 512 ==> #[trigger] raw[i] == byte) ==> padding_at(
            raw,
            offset,
        ) == Some(byte),
        (forall|i: int|
            offset + 32 <= i < offset + 512 ==> #[trigger] raw[i] == (if i < offset + 32 + zeros {
                0u8
            } else {
                0xff
            })) ==> padding_at(raw, offset) == Some(0xffu8),
        padding_at(raw, offset) == Some(byte) ==> forall|i: int|
            offset + 48 <= i < offset + 512 ==> #[trigger] raw[i] == byte,
        padding_at(raw, offset) == Some(byte) ==> forall|i: int|
            offset + 32 <= i < offset + 512 ==> #[trigger] raw[i] == byte || (byte == 0xff && raw[i]
                == 0),
{
    let short = raw.subrange(offset + 0x20, offset + 0x40);
    let tail = raw.subrange(offset + 0x20, offset + 0x200);
    assert(forall|i: int| 0 <= i < 32 ==> #[trigger] short[i] == raw[offset + 32 + i]);
    assert(forall|i: int| 0 <= i < 480 ==> #[trigger] tail[i] == raw[offset + 32 + i]);
    lemma_zero_run(tail);
    if forall|i: int| offset + 32 <= i < offset + 512 ==> #[trigger] raw[i] == byte {
        assert(uniform(short) == Some(byte));
        assert(bytes::all_equal(tail, byte));
    }
    if forall|i: int|
        offset + 32 <= i < offset + 512 ==> #[trigger] raw[i] == (if i < offset + 32 + zeros {
            0u8
        } else {
            0xff
        }) {
        assert(tail[0] == 0 && tail[zeros] == 0xff && tail[zeros - 1] == 0);
        assert(short[0] == 0 && short[zeros] == 0xff);
        assert(uniform(short) is None);
        assert(zero_run(tail) == zeros);
        let rest = tail.skip(zeros);
        assert(forall|i: int| 0 <= i < rest.len() ==> #[trigger] rest[i] == tail[zeros + i]);
        assert(uniform(rest) == Some(0xffu8));
    }
    if padding_at(raw, offset) == Some(byte) {
        let run = zero_run(tail);
        if run <= 16 {
            let rest = tail.skip(run);
            assert(forall|i: int| run <= i < 480 ==> #[trigger] tail[i] == rest[i - run]);
        }
        assert forall|i: int| offset + 32 <= i < offset + 512 implies #[trigger] raw[i] == byte || (
        byte == 0xff && raw[i] == 0) by {
            assert(tail[i - offset - 32] == raw[i]);
        }
        assert forall|i: int| offset + 48 <= i < offset + 512 implies #[trigger] raw[i] == byte by {
            assert(tail[i - offset - 32] == raw[i]);
        }
    }
}

proof fn lemma_zero_run(s: Seq<u8>)
    ensures
        0 <= zero_run(s) <= s.len(),
        forall|i: int| 0 <= i < zero_run(s) ==> #[trigger] s[i] == 0,
        zero_run(s) < s.len() ==> s[zero_run(s)] != 0,
    decreases s.len(),
{
    if s.len() > 0 && s[0] == 0 {
        let rest = s.skip(1);
        lemma_zero_run(rest);
        assert forall|i: int| 0 <= i < zero_run(s) implies #[trigger] s[i] == 0 by {
            if i > 0 {
                assert(rest[i - 1] == s[i]);
            }
        }
        if zero_run(s) < s.len() {
            assert(rest[zero_run(rest)] == s[zero_run(s)]);
        }
    }
}

/// The places that are found have the eight bytes of `OEM_INFO`, in order and none
/// overlapping; one that has them and is not found overlaps one that is.
pub proof fn law_marks_are_found(raw: Seq<u8>, from: int)
    requires
        from >= 0,
    ensures
        ({
            let all = magic_offsets(raw, from);
            &&& forall|k: int|
                0 <= k < all.len() ==> from <= #[trigger] all[k] && is_marked(raw, all[k])
            &&& forall|j: int, k: int|
                0 <= j < k < all.len() ==> #[trigger] all[j] + 8 <= #[trigger] all[k]
            &&& forall|at: int|
                at >= from && #[trigger] is_marked(raw, at) ==> exists|k: int|
                    0 <= k < all.len() && #[trigger] all[k] <= at < all[k] + 8
        }),
    decreases raw.len() - from,
{
    let all = magic_offsets(raw, from);
    bytes::law_first_matches_are_first(raw, OEMINFO_MAGIC@, from);
    assert forall|at: int| #[trigger] is_marked(raw, at) implies bytes::stands_at(
        raw,
        at,
        OEMINFO_MAGIC@,
    ) by {
        lemma_marked(raw, at);
    }
    if let Some(first) = bytes::first_match(raw, OEMINFO_MAGIC@, from) {
        assert(OEMINFO_MAGIC@.len() == 8);
        lemma_first_match(raw, OEMINFO_MAGIC@, from);
        lemma_marked(raw, first);
        let rest = magic_offsets(raw, first + 8);
        law_marks_are_found(raw, first + 8);
        assert(all =~= seq![first] + rest);
        assert forall|k: int| 0 <= k < all.len() implies from <= #[trigger] all[k] && is_marked(
            raw,
            all[k],
        ) by {
            if k > 0 {
                assert(all[k] == rest[k - 1]);
            }
        }
        assert forall|j: int, k: int| 0 <= j < k < all.len() implies #[trigger] all[j] + 8
            <= #[trigger] all[k] by {
            assert(all[k] == rest[k - 1]);
            if j > 0 {
                assert(all[j] == rest[j - 1]);
            }
        }
        assert forall|at: int| at >= from && #[trigger] is_marked(raw, at) implies exists|k: int|
            0 <= k < all.len() && #[trigger] all[k] <= at < all[k] + 8 by {
            if at < first + 8 {
                assert(all[0] == first);
            } else {
                let k = choose|k: int| 0 <= k < rest.len() && #[trigger] rest[k] <= at < rest[k] + 8;
                assert(all[k + 1] == rest[k]);
            }
        }
    }
}

/// A probe takes a header for that of a block where its numbers are within their
/// limits, the 36 bytes behind them are one and the same, and the block ends within
/// the file.
pub proof fn law_probed_headers_are_plausible(
    window: Seq<u8>,
    offset: int,
    absolute: int,
    file_size: int,
)
    requires
        offset >= 0,
    ensures
        looks_like_block(window, offset, absolute, file_size) <==> {
            &&& offset + 64 <= window.len()
            &&& 1 <= bytes::le32(window, offset + 8) <= 65_536
            &&& bytes::le32(window, offset + 20) >= 1
            &&& bytes::le32(window, offset + 24) <= 999_999_999
            &&& forall|i: int|
                offset + 28 <= i < offset + 64 ==> #[trigger] window[i] == window[offset + 28]
            &&& absolute + bytes::le32(window, offset + 20) + (if padding_at(window, offset) is Some {
                512int
            } else {
                64int
            }) <= file_size
        },
{
    if offset + 64 <= window.len() {
        let fields = window.subrange(offset + 28, offset + 32);
        let tail = window.subrange(offset + 0x20, offset + 0x40);
        assert(forall|i: int| 0 <= i < 4 ==> #[trigger] fields[i] == window[offset + 28 + i]);
        assert(forall|i: int| 0 <= i < 32 ==> #[trigger] tail[i] == window[offset + 32 + i]);
        bytes::law_numbers_start_with_their_lowest_byte(window, offset + 8);
        bytes::law_numbers_start_with_their_lowest_byte(window, offset + 20);
        if uniform(fields) is Some && uniform(fields) == uniform(tail) {
            assert forall|i: int| offset + 28 <= i < offset + 64 implies #[trigger] window[i]
                == window[offset + 28] by {
                assert(fields[0] == window[offset + 28]);
                if i < offset + 32 {
                    assert(fields[i - offset - 28] == window[i]);
                } else {
                    assert(tail[i - offset - 32] == window[i]);
                }
            }
        }
        if forall|i: int|
            offset + 28 <= i < offset + 64 ==> #[trigger] window[i] == window[offset + 28] {
            assert(fields[0] == window[offset + 28]);
            assert(tail[0] == window[offset + 32]);
            assert(uniform(fields) == Some(window[offset + 28]));
            assert(uniform(tail) == Some(window[offset + 28]));
        }
    }
}

/// True when a window of a probe shows a block: window `n` has 2 MiB, the last one
/// less, and 511 bytes before them.
pub open spec fn window_shows(scanned: Seq<u8>, n: int, file_size: int) -> bool {
    let first = 0x20_0000 * n;
    let start = if first < 511 {
        0
    } else {
        first - 511
    };
    let end = if first + 0x20_0000 < scanned.len() {
        first + 0x20_0000
    } else {
        scanned.len() as int
    };
    0 <= n && first < scanned.len() && range_shows_block(scanned, start, end, file_size)
}

/// A probe finds a block where one of its windows shows one.
pub proof fn law_probes_look_at_every_window(scanned: Seq<u8>, n: int, file_size: int)
    requires
        0 <= n,
    ensures
        shows_block(scanned, 0x20_0000 * n, file_size) <==> exists|k: int|
            n <= k && #[trigger] window_shows(scanned, k, file_size),
    decreases
            if 0x20_0000 * n < scanned.len() {
                scanned.len() - 0x20_0000 * n
            } else {
                0
            },
{
    if 0x20_0000 * n < scanned.len() {
        law_probes_look_at_every_window(scanned, n + 1, file_size);
        assert(0x20_0000 * n + 0x20_0000 == 0x20_0000 * (n + 1));
        let (start, end) = probe_window(scanned, 0x20_0000 * n);
        assert(window_shows(scanned, n, file_size) == range_shows_block(
            scanned,
            start,
            end,
            file_size,
        ));
        if exists|k: int| n <= k && #[trigger] window_shows(scanned, k, file_size) {
            let k = choose|k: int| n <= k && #[trigger] window_shows(scanned, k, file_size);
            if k > n {
                assert(n + 1 <= k && window_shows(scanned, k, file_size));
            }
        }
    }
}

/// A window shows a block where one of the places with the magic in it looks like
/// one.
pub proof fn law_windows_show_blocks(
    scanned: Seq<u8>,
    start: int,
    end: int,
    file_size: int,
    k: int,
)
    requires
        0 <= start <= end <= scanned.len(),
        0 <= k < magic_offsets(scanned.subrange(start, end), 0).len(),
    ensures
        ({
            let window = scanned.subrange(start, end);
            let at = magic_offsets(window, 0)[k];
            looks_like_block(window, at, start + at, file_size) ==> range_shows_block(
                scanned,
                start,
                end,
                file_size,
            )
        }),
        range_shows_block(scanned, start, end, file_size) ==> exists|at: int|
            magic_offsets(scanned.subrange(start, end), 0).contains(at) && #[trigger] looks_like_block(
                scanned.subrange(start, end),
                at,
                start + at,
                file_size,
            ),
{
    if range_shows_block(scanned, start, end, file_size) {
        let window = scanned.subrange(start, end);
        let offsets = magic_offsets(window, 0);
        let i = choose|i: int|
            0 <= i < offsets.len() && looks_like_block(
                window,
                #[trigger] offsets[i],
                start + offsets[i],
                file_size,
            );
        assert(offsets.contains(offsets[i]));
    }
}

/// A probe scans at most the first 64 MiB of a file.
pub proof fn law_probes_scan_the_start(file_size: u64, length: u64)
    requires
        call_ensures(probe_scan_length, (file_size,), length),
    ensures
        length <= file_size && length <= 67_108_864,
        length == file_size || length == 67_108_864,
{
}

} // verus!
