//! OEMINFO partition images: blocks of device data, kept in two banks.

pub mod bank;
pub mod bmp;
pub mod codec;
pub mod embedded;
pub mod header;
pub mod logo;
pub mod payload;
pub mod renewal;
pub mod summary;

use vstd::prelude::*;

use crate::oeminfo::bank::OemInfoRegion;
use crate::oeminfo::header::{
    BlockHeader, OemInfoLayout, OEMINFO_REUSED_ALIGNMENT, OEMINFO_REUSED_HEADER_SIZE,
    OEMINFO_STANDARD_ALIGNMENT,
};
use crate::oeminfo::payload::{OemInfoPayloadKind, PayloadDetails};

verus! {

/// Why an image is not an OEMINFO image.
#[derive(Debug, Clone, Copy, PartialEq, Eq, Structural)]
pub enum OemInfoError {
    /// The image is shorter than the shortest header.
    TooSmall,
    /// No place that holds the magic has a plausible header.
    NoBlocks,
}

/// A block of the image, with what is known of it.
#[derive(Debug)]
pub struct ParsedBlock {
    pub header: BlockHeader,
    pub region: OemInfoRegion,
    pub active: bool,
    pub payload: PayloadDetails,
    pub block_padding_byte: u8,
}

/// A parsed OEMINFO image.
#[derive(Debug)]
pub struct OemInfoImage {
    pub(crate) raw: Vec<u8>,
    pub(crate) candidate_headers: usize,
    pub(crate) discarded_headers: usize,
    pub(crate) region_size: usize,
    pub(crate) blocks: Vec<ParsedBlock>,
}

#[derive(Debug, Clone)]
pub struct OemInfoBlockSummary {
    pub offset: u64,
    pub version: u32,
    pub id: u32,
    pub sub_id: u32,
    pub length: u32,
    pub age: u32,
    pub header_size: u32,
    pub layout: OemInfoLayout,
    pub region: OemInfoRegion,
    pub active: bool,
    pub payload_kind: OemInfoPayloadKind,
    pub text_preview: Option<String>,
    pub tlv_parts: usize,
    pub tlv_description: Option<String>,
    pub image_version_hex: Option<String>,
    pub image_random_adjust: Option<u32>,
    pub header_padding_byte: u8,
    pub block_padding_byte: u8,
}

#[derive(Debug, Clone)]
pub struct OemInfoImageSummary {
    pub file_size: u64,
    pub region_size: u64,
    pub candidate_headers: usize,
    pub discarded_headers: usize,
    pub total_blocks: usize,
    pub active_blocks: usize,
    pub inactive_blocks: usize,
    pub region_a_blocks: usize,
    pub region_b_blocks: usize,
    pub unknown_region_blocks: usize,
    pub standard_blocks: usize,
    pub compact_blocks: usize,
    pub reused_blocks: usize,
    pub blocks: Vec<OemInfoBlockSummary>,
}

// ---------------------------------------------------------------------------
// Parsing
// ---------------------------------------------------------------------------

/// The plausible headers at the given places, in their order.
pub open spec fn headers_at(raw: Seq<u8>, offsets: Seq<int>) -> Seq<BlockHeader>
    decreases offsets.len(),
{
    if offsets.len() == 0 {
        seq![]
    } else {
        let before = headers_at(raw, offsets.drop_last());
        match header::header_at(raw, offsets.last()) {
            Some(h) => before.push(h),
            None => before,
        }
    }
}

/// The plausible headers of an image.
pub open spec fn candidates(raw: Seq<u8>) -> Seq<BlockHeader> {
    headers_at(raw, header::magic_offsets(raw, 0))
}

/// The headers of the blocks of an image.
pub open spec fn image_headers(raw: Seq<u8>) -> Seq<BlockHeader> {
    bank::compacted(bank::kept(candidates(raw), 0))
}

/// The byte that fills the space between a block and where the next may start.
pub open spec fn block_padding(raw: Seq<u8>, h: BlockHeader) -> u8 {
    let alignment: int = if h.layout == OemInfoLayout::Standard {
        0x1000
    } else {
        0x80
    };
    let aligned = bank::aligned_up(h.end(), alignment);
    let end = if aligned < raw.len() {
        aligned
    } else {
        raw.len() as int
    };
    match header::uniform(raw.subrange(h.end(), end)) {
        Some(byte) => byte,
        None => h.header_padding_byte,
    }
}

/// The bytes of a block's payload.
pub open spec fn payload_bytes(raw: Seq<u8>, h: BlockHeader) -> Seq<u8> {
    raw.subrange(h.payload_start(), h.end())
}

/// True when `block` says of the block with index `i` what the image holds.
pub open spec fn is_block<F: Fn(&[u8]) -> bool>(
    judge: F,
    raw: Seq<u8>,
    headers: Seq<BlockHeader>,
    region_size: int,
    i: int,
    block: ParsedBlock,
) -> bool {
    &&& block.header == headers[i]
    &&& block.region == bank::region_of(headers[i], region_size)
    &&& block.active == bank::is_active(headers, region_size, i)
    &&& payload::is_payload(judge, payload_bytes(raw, headers[i]), block.payload@)
    &&& block.block_padding_byte == block_padding(raw, headers[i])
}

impl OemInfoImage {
    /// The bytes of the image.
    pub closed spec fn bytes(&self) -> Seq<u8> {
        self.raw@
    }

    /// The blocks of the image.
    pub closed spec fn parsed(&self) -> Seq<ParsedBlock> {
        self.blocks@
    }

    /// The size of the first bank.
    pub closed spec fn bank_size(&self) -> int {
        self.region_size as int
    }

    /// How many places hold the magic.
    pub closed spec fn candidate_count(&self) -> int {
        self.candidate_headers as int
    }

    /// How many of them are no block.
    pub closed spec fn discarded_count(&self) -> int {
        self.discarded_headers as int
    }

    /// The headers of the blocks.
    pub open spec fn headers(&self) -> Seq<BlockHeader> {
        self.parsed().map_values(|b: ParsedBlock| b.header)
    }

    /// The blocks lie apart, each within the image; the banks are not empty and
    /// lie within it too; and what is called an image has room for one.
    pub open spec fn well_formed(&self) -> bool {
        &&& bank::apart(self.headers())
        &&& bank::all_fit(self.headers(), self.bytes().len() as int)
        &&& self.bytes().len() <= usize::MAX
        &&& self.parsed().len() > 0
        &&& 0 < self.bank_size() <= self.bytes().len()
        &&& forall|i: int|
            0 <= i < self.parsed().len() && (
            #[trigger] self.parsed()[i]).payload.kind.is_image()
                ==> self.parsed()[i].header.length >= 28
    }

    /// True when `self` is what parsing `raw` gives.
    pub open spec fn is_parse_of<F: Fn(&[u8]) -> bool>(&self, judge: F, raw: Seq<u8>) -> bool {
        let headers = image_headers(raw);
        &&& self.bytes() == raw
        &&& self.candidate_count() == header::magic_offsets(raw, 0).len()
        &&& self.discarded_count() == header::magic_offsets(raw, 0).len() - headers.len()
        &&& bank::is_region_size(raw.len() as int, headers, self.bank_size())
        &&& self.parsed().len() == headers.len()
        &&& forall|i: int|
            #![trigger self.parsed()[i]]
            0 <= i < headers.len() ==> is_block(
                judge,
                raw,
                headers,
                self.bank_size(),
                i,
                self.parsed()[i],
            )
    }

    /// Parses an image; `high_entropy` says of bytes whether they look random.
    pub fn from_bytes<F: Fn(&[u8]) -> bool>(raw: Vec<u8>, high_entropy: &F) -> (image: Result<
        OemInfoImage,
        OemInfoError,
    >)
        requires
            forall|slice: &[u8]| call_requires(*high_entropy, (slice,)),
        ensures
            match image {
                Ok(parsed) => raw@.len() >= 0x40 && candidates(raw@).len() > 0
                    && parsed.is_parse_of(*high_entropy, raw@) && parsed.well_formed(),
                Err(OemInfoError::TooSmall) => raw@.len() < 0x40,
                Err(OemInfoError::NoBlocks) => raw@.len() >= 0x40 && candidates(raw@).len() == 0,
            },
    {
        if raw.len() < OEMINFO_REUSED_HEADER_SIZE {
            return Err(OemInfoError::TooSmall);
        }
        let size: Ghost<int> = Ghost(raw@.len() as int);
        let offsets = header::find_magic_offsets(raw.as_slice());
        let found = collect_headers(raw.as_slice(), &offsets);
        if found.len() == 0 {
            return Err(OemInfoError::NoBlocks);
        }
        let apart_headers = bank::keep_apart(&found, size);
        proof {
            bank::lemma_compacted(apart_headers@, size@);
        }
        let headers = bank::resolve_compact_layouts(&apart_headers, size);
        let region_size: usize = bank::infer_region_size(raw.len(), &headers);
        let blocks = classify_blocks(raw.as_slice(), &headers, region_size, high_entropy);
        let image = OemInfoImage {
            candidate_headers: offsets.len(),
            discarded_headers: offsets.len() - headers.len(),
            region_size,
            blocks,
            raw,
        };
        proof {
            assert forall|i: int| 0 <= i < headers@.len() implies image.headers()[i]
                == headers@[i] by {
                assert(is_block(
                    *high_entropy,
                    image.bytes(),
                    headers@,
                    region_size as int,
                    i,
                    image.parsed()[i],
                ));
            }
            assert(image.headers() =~= headers@);
            bank::lemma_region_size(image.raw@.len() as int, headers@, region_size as int);
            assert forall|i: int|
                0 <= i < image.parsed().len() && (
                #[trigger] image.parsed()[i]).payload.kind.is_image() implies image.parsed()[i].header.length
                >= 28 by {
                let bytes = payload_bytes(image.raw@, headers@[i]);
                assert(headers@[i].fits(image.raw@.len() as int));
                payload::lemma_image_length(*high_entropy, bytes, image.parsed()[i].payload@);
            }
        }
        Ok(image)
    }

    pub fn as_bytes(&self) -> (raw: &[u8])
        ensures
            raw@ == self.bytes(),
    {
        self.raw.as_slice()
    }
}

fn collect_headers(raw: &[u8], offsets: &Vec<usize>) -> (found: Vec<BlockHeader>)
    ensures
        found@ == headers_at(raw@, header::positions(offsets@)),
        bank::all_fit(found@, raw@.len() as int),
        found@.len() <= offsets@.len(),
{
    let mut found: Vec<BlockHeader> = Vec::new();
    let mut i: usize = 0;
    let ghost places = header::positions(offsets@);
    assert(places.take(0) =~= Seq::<int>::empty());
    while i < offsets.len()
        invariant
            i <= offsets@.len(),
            places == header::positions(offsets@),
            found@ == headers_at(raw@, places.take(i as int)),
            bank::all_fit(found@, raw@.len() as int),
            found@.len() <= i,
        decreases offsets@.len() - i,
    {
        if let Some(h) = header::parse_header(raw, offsets[i]) {
            found.push(h);
        }
        i += 1;
        assert(places.take(i as int).drop_last() =~= places.take(i - 1));
    }
    assert(places.take(i as int) =~= places);
    found
}

fn padding_of(raw: &[u8], h: &BlockHeader) -> (byte: u8)
    requires
        h.fits(raw@.len() as int),
    ensures
        byte == block_padding(raw@, *h),
{
    let alignment: usize = if h.layout == OemInfoLayout::Standard {
        OEMINFO_STANDARD_ALIGNMENT
    } else {
        OEMINFO_REUSED_ALIGNMENT
    };
    assert(raw.len() <= usize::MAX);
    let start: usize = h.offset + h.header_size + h.length as usize;
    let aligned: usize = bank::align_up(start, alignment);
    let end: usize = if aligned < raw.len() {
        aligned
    } else {
        raw.len()
    };
    match header::uniform_byte(&raw[start..end]) {
        Some(byte) => byte,
        None => h.header_padding_byte,
    }
}

fn classify_blocks<F: Fn(&[u8]) -> bool>(
    raw: &[u8],
    headers: &Vec<BlockHeader>,
    region_size: usize,
    high_entropy: &F,
) -> (blocks: Vec<ParsedBlock>)
    requires
        bank::all_fit(headers@, raw@.len() as int),
        forall|slice: &[u8]| call_requires(*high_entropy, (slice,)),
    ensures
        blocks@.len() == headers@.len(),
        forall|i: int|
            0 <= i < headers@.len() ==> is_block(
                *high_entropy,
                raw@,
                headers@,
                region_size as int,
                i,
                #[trigger] blocks@[i],
            ),
{
    let mut blocks: Vec<ParsedBlock> = Vec::new();
    let size: Ghost<int> = Ghost(raw@.len() as int);
    assert(raw.len() <= usize::MAX);
    let mut i: usize = 0;
    while i < headers.len()
        invariant
            i <= headers@.len(),
            blocks@.len() == i,
            size@ == raw@.len(),
            size@ <= usize::MAX,
            bank::all_fit(headers@, raw@.len() as int),
            forall|slice: &[u8]| call_requires(*high_entropy, (slice,)),
            forall|k: int|
                0 <= k < i ==> is_block(
                    *high_entropy,
                    raw@,
                    headers@,
                    region_size as int,
                    k,
                    #[trigger] blocks@[k],
                ),
        decreases headers@.len() - i,
    {
        let h = headers[i];
        assert(headers@[i as int].fits(size@));
        let start: usize = h.offset + h.header_size;
        let end: usize = start + h.length as usize;
        let block = ParsedBlock {
            header: h,
            region: bank::find_region(&h, region_size, size),
            active: bank::find_active(headers, region_size, i, size),
            payload: payload::classify_payload(&raw[start..end], high_entropy),
            block_padding_byte: padding_of(raw, &h),
        };
        assert(is_block(
            *high_entropy,
            raw@,
            headers@,
            region_size as int,
            i as int,
            block,
        ));
        blocks.push(block);
        i += 1;
    }
    blocks
}

// ---------------------------------------------------------------------------
// What an image holds
// ---------------------------------------------------------------------------

/// The plausible headers of an image are those at the places with the magic, in
/// their order, and every such place with a plausible header gives one.
pub proof fn law_headers_are_those_at_their_places(raw: Seq<u8>, offsets: Seq<int>)
    ensures
        ({
            let found = headers_at(raw, offsets);
            &&& forall|k: int|
                0 <= k < found.len() ==> exists|i: int|
                    0 <= i < offsets.len() && header::header_at(raw, #[trigger] offsets[i]) == Some(
                        #[trigger] found[k],
                    )
            &&& forall|i: int|
                0 <= i < offsets.len() && header::header_at(raw, #[trigger] offsets[i]) is Some
                    ==> found.contains(header::header_at(raw, offsets[i])->0)
            &&& found.len() <= offsets.len()
        }),
    decreases offsets.len(),
{
    if offsets.len() > 0 {
        let less = offsets.drop_last();
        let last = offsets.last();
        let before = headers_at(raw, less);
        let found = headers_at(raw, offsets);
        law_headers_are_those_at_their_places(raw, less);
        assert forall|k: int| 0 <= k < found.len() implies exists|i: int|
            0 <= i < offsets.len() && header::header_at(raw, #[trigger] offsets[i]) == Some(
                #[trigger] found[k],
            ) by {
            if k < before.len() {
                assert(found[k] == before[k]);
                let i = choose|i: int|
                    0 <= i < less.len() && header::header_at(raw, #[trigger] less[i]) == Some(
                        before[k],
                    );
                assert(offsets[i] == less[i]);
            } else {
                assert(offsets[offsets.len() - 1] == last);
            }
        }
        assert forall|i: int|
            0 <= i < offsets.len() && header::header_at(
                raw,
                #[trigger] offsets[i],
            ) is Some implies found.contains(header::header_at(raw, offsets[i])->0) by {
            let h = header::header_at(raw, offsets[i])->0;
            if i < less.len() {
                assert(less[i] == offsets[i]);
                let k = choose|k: int| 0 <= k < before.len() && before[k] == h;
                assert(found[k] == h);
            } else {
                assert(found[found.len() - 1] == h);
            }
        }
    }
}

/// The payload of a block are the bytes behind its header, as many as it states.
/// Where the bytes from there to the next place for a block are one and the same,
/// they are its padding: 4096 bytes apart for a standard block, else 128.
pub proof fn law_payloads_stand_behind_their_header(raw: Seq<u8>, h: BlockHeader, byte: u8)
    requires
        h.fits(raw.len() as int),
        raw.len() + 4095 <= usize::MAX,
    ensures
        payload_bytes(raw, h).len() == h.length,
        forall|i: int|
            0 <= i < h.length ==> #[trigger] payload_bytes(raw, h)[i] == raw[h.offset + h.header_size
                + i],
        ({
            let end = h.offset + h.header_size + h.length;
            let step: int = if h.layout == OemInfoLayout::Standard {
                4096
            } else {
                128
            };
            let next = (end + step - 1) / step * step;
            let stop = if next < raw.len() {
                next
            } else {
                raw.len() as int
            };
            &&& end < stop && (forall|i: int| end <= i < stop ==> #[trigger] raw[i] == byte)
                ==> block_padding(raw, h) == byte
            &&& end >= stop ==> block_padding(raw, h) == h.header_padding_byte
        }),
{
    let end = h.end();
    let step: int = if h.layout == OemInfoLayout::Standard {
        4096
    } else {
        128
    };
    let next = (end + step - 1) / step * step;
    assert(next == bank::aligned_up(end, step));
    bank::law_aligned_values_are_least(end, step);
    let stop = if next < raw.len() {
        next
    } else {
        raw.len() as int
    };
    let gap = raw.subrange(end, stop);
    assert(forall|i: int| 0 <= i < gap.len() ==> #[trigger] gap[i] == raw[end + i]);
    if end < stop && (forall|i: int| end <= i < stop ==> #[trigger] raw[i] == byte) {
        assert(header::uniform(gap) == Some(byte));
    }
}

/// A parsed image has a block for each header that is kept, with the region it lies
/// in and whether it is the newest copy; every place with the magic is one of them or
/// counted as discarded.
pub proof fn law_parsed_images_account_for_every_mark<F: Fn(&[u8]) -> bool>(
    judge: F,
    image: OemInfoImage,
    raw: Seq<u8>,
    i: int,
)
    requires
        image.is_parse_of(judge, raw),
        0 <= i < image.parsed().len(),
    ensures
        image.bytes() == raw,
        image.candidate_count() == header::magic_offsets(raw, 0).len(),
        image.parsed().len() + image.discarded_count() == image.candidate_count(),
        image.parsed().len() == bank::kept(headers_at(raw, header::magic_offsets(raw, 0)), 0).len(),
        ({
            let b = image.parsed()[i];
            let h = bank::kept(headers_at(raw, header::magic_offsets(raw, 0)), 0)[i];
            &&& b.header.offset == h.offset && b.header.id == h.id && b.header.age == h.age
            &&& b.header.length == h.length && b.header.sub_id == h.sub_id
            &&& b.header.version == h.version && b.header.header_size == h.header_size
            &&& b.region == bank::region_of(b.header, image.bank_size())
            &&& b.active == bank::is_active(image_headers(raw), image.bank_size(), i)
            &&& payload::is_payload(judge, payload_bytes(raw, b.header), b.payload@)
        }),
{
    assert(is_block(judge, raw, image_headers(raw), image.bank_size(), i, image.parsed()[i]));
}

} // verus!
