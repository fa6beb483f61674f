//! Reading an image that a block embeds, with the block checked again.

use vstd::prelude::*;

use crate::bytes;
use crate::oeminfo::bank;
use crate::oeminfo::header;
use crate::oeminfo::header::{BlockHeader, OemInfoLayout, MAX_PLAUSIBLE_VERSION, OEMINFO_MAGIC};
use crate::oeminfo::payload;
use crate::oeminfo::payload::{OemInfoPayloadKind, IMAGE_DATA_OFFSET};
use crate::oeminfo::{OemInfoBlockSummary, OemInfoImage};
use crate::text;

verus! {

pub const OEMINFO_MAX_EMBEDDED_IMAGE_SIZE: u64 = 268_435_456;

#[derive(Debug, Clone, PartialEq, Eq)]
pub struct OemInfoEmbeddedImage {
    pub kind: OemInfoPayloadKind,
    pub data: Vec<u8>,
}

/// Why the image of a selected block cannot be read. A block that was selected
/// from a summary may have changed since.
#[derive(Debug, Clone, Copy, PartialEq, Eq, Structural)]
pub enum EmbeddedImageError {
    NotAnImage,
    HeaderSizeChanged,
    Misaligned,
    HeaderTruncated,
    MagicChanged,
    FieldChanged,
    InvalidVersion,
    PaddingLayoutChanged,
    PaddingChanged,
    TooShort,
    TooLarge,
    PayloadTruncated,
    DataOffsetChanged,
    InvalidLength,
    AdjustmentChanged,
    VersionChanged,
    UnknownSignature,
    KindChanged,
}

/// True when the five fields after the magic are those of the summary.
pub open spec fn same_fields(h: Seq<u8>, block: OemInfoBlockSummary) -> bool {
    &&& bytes::le32(h, 8) == block.version
    &&& bytes::le32(h, 12) == block.id
    &&& bytes::le32(h, 16) == block.sub_id
    &&& bytes::le32(h, 20) == block.length
    &&& bytes::le32(h, 24) == block.age
}

/// The padding of a header of the given layout.
pub open spec fn layout_padding(h: Seq<u8>, layout: OemInfoLayout) -> Option<u8> {
    match layout {
        OemInfoLayout::Standard | OemInfoLayout::StandardCompact => header::padding_at(h, 0),
        OemInfoLayout::Reused => match header::either(
            header::uniform(h.skip(0x20)),
            header::uniform(h.subrange(28, 0x20)),
        ) {
            Some(byte) => Some(byte),
            None => Some(0),
        },
    }
}

/// What is wrong with the header of a selected block.
pub open spec fn header_error(h: Seq<u8>, block: OemInfoBlockSummary) -> Option<
    EmbeddedImageError,
> {
    if !bytes::stands_at(h, 0, OEMINFO_MAGIC@) {
        Some(EmbeddedImageError::MagicChanged)
    } else if !same_fields(h, block) {
        Some(EmbeddedImageError::FieldChanged)
    } else if block.version == 0 || block.version > MAX_PLAUSIBLE_VERSION {
        Some(EmbeddedImageError::InvalidVersion)
    } else if layout_padding(h, block.layout) is None {
        Some(EmbeddedImageError::PaddingLayoutChanged)
    } else if layout_padding(h, block.layout) != Some(block.header_padding_byte) {
        Some(EmbeddedImageError::PaddingChanged)
    } else {
        None
    }
}

/// What is wrong with the image header of a selected block.
pub open spec fn image_header_error(h: Seq<u8>, block: OemInfoBlockSummary) -> Option<
    EmbeddedImageError,
> {
    let kind = payload::signature_kind(h.subrange(24, 28));
    if bytes::le32(h, 0) != IMAGE_DATA_OFFSET {
        Some(EmbeddedImageError::DataOffsetChanged)
    } else if bytes::le32(h, 4) - bytes::le32(h, 8) != block.length {
        Some(EmbeddedImageError::InvalidLength)
    } else if block.image_random_adjust != Some(bytes::le32(h, 8) as u32) {
        Some(EmbeddedImageError::AdjustmentChanged)
    } else if payload::text_of(block.image_version_hex) != Some(
        payload::capital_hex(h.subrange(12, 24)),
    ) {
        Some(EmbeddedImageError::VersionChanged)
    } else if kind is None {
        Some(EmbeddedImageError::UnknownSignature)
    } else if kind != Some(block.payload_kind) {
        Some(EmbeddedImageError::KindChanged)
    } else {
        None
    }
}

/// Where the payload of a block of the given layout starts.
pub open spec fn payload_offset(block: OemInfoBlockSummary) -> int {
    block.offset + block.layout.header_len()
}

/// What is wrong with a selected block of an image, the first thing that is.
pub open spec fn embedded_error(image: Seq<u8>, block: OemInfoBlockSummary, limit: u64) -> Option<
    EmbeddedImageError,
> {
    let start = payload_offset(block);
    let h = image.subrange(block.offset as int, start);
    if !block.payload_kind.is_image() {
        Some(EmbeddedImageError::NotAnImage)
    } else if block.header_size != block.layout.header_len() {
        Some(EmbeddedImageError::HeaderSizeChanged)
    } else if block.layout == OemInfoLayout::Standard && block.offset % 0x1000 != 0 {
        Some(EmbeddedImageError::Misaligned)
    } else if start > image.len() {
        Some(EmbeddedImageError::HeaderTruncated)
    } else if header_error(h, block) is Some {
        header_error(h, block)
    } else if block.length < 28 {
        Some(EmbeddedImageError::TooShort)
    } else if block.length - 26 > limit {
        Some(EmbeddedImageError::TooLarge)
    } else if start + block.length > image.len() {
        Some(EmbeddedImageError::PayloadTruncated)
    } else {
        image_header_error(image.subrange(start, start + 28), block)
    }
}

fn validate_selected_block_header(h: &[u8], block: &OemInfoBlockSummary) -> (error: Option<
    EmbeddedImageError,
>)
    requires
        h@.len() == block.layout.header_len(),
    ensures
        error == header_error(h@, *block),
{
    if !bytes::matches_at(h, 0, OEMINFO_MAGIC.as_slice()) {
        return Some(EmbeddedImageError::MagicChanged);
    }
    if bytes::read_u32(h, 8) != block.version || bytes::read_u32(h, 12) != block.id
        || bytes::read_u32(h, 16) != block.sub_id || bytes::read_u32(h, 20) != block.length
        || bytes::read_u32(h, 24) != block.age {
        return Some(EmbeddedImageError::FieldChanged);
    }
    if block.version == 0 || block.version > MAX_PLAUSIBLE_VERSION {
        return Some(EmbeddedImageError::InvalidVersion);
    }
    let padding: Option<u8> = match block.layout {
        OemInfoLayout::Standard | OemInfoLayout::StandardCompact => header::standard_padding(h, 0),
        OemInfoLayout::Reused => {
            let tail = &h[0x20..h.len()];
            assert(tail@ == h@.skip(0x20));
            match header::first_of(header::uniform_byte(tail), header::uniform_byte(&h[28..0x20])) {
                Some(byte) => Some(byte),
                None => Some(0),
            }
        },
    };
    match padding {
        None => Some(EmbeddedImageError::PaddingLayoutChanged),
        Some(byte) => if byte != block.header_padding_byte {
            Some(EmbeddedImageError::PaddingChanged)
        } else {
            None
        },
    }
}

fn validate_selected_image_header(h: &[u8], block: &OemInfoBlockSummary) -> (error: Option<
    EmbeddedImageError,
>)
    requires
        h@.len() == 28,
    ensures
        error == image_header_error(h@, *block),
{
    if bytes::read_u32(h, 0) as usize != IMAGE_DATA_OFFSET {
        return Some(EmbeddedImageError::DataOffsetChanged);
    }
    let end_offset: u32 = bytes::read_u32(h, 4);
    let random_adjust: u32 = bytes::read_u32(h, 8);
    if end_offset < random_adjust || end_offset - random_adjust != block.length {
        return Some(EmbeddedImageError::InvalidLength);
    }
    match block.image_random_adjust {
        Some(recorded) => {
            if recorded != random_adjust {
                return Some(EmbeddedImageError::AdjustmentChanged);
            }
        },
        None => {
            return Some(EmbeddedImageError::AdjustmentChanged);
        },
    }
    let version_hex = payload::encode_upper(&h[12..24]);
    match &block.image_version_hex {
        Some(recorded) => {
            if !text::same_text(recorded.as_str(), version_hex.as_str()) {
                return Some(EmbeddedImageError::VersionChanged);
            }
        },
        None => {
            return Some(EmbeddedImageError::VersionChanged);
        },
    }
    match payload::image_signature(&h[24..28]) {
        None => Some(EmbeddedImageError::UnknownSignature),
        Some(kind) => if kind != block.payload_kind {
            Some(EmbeddedImageError::KindChanged)
        } else {
            None
        },
    }
}

/// Reads the image of a selected block, if it is still there and is no longer
/// than `max_image_size`.
pub fn read_embedded_image_with_limit(
    image: &[u8],
    block: &OemInfoBlockSummary,
    max_image_size: u64,
) -> (read: Result<OemInfoEmbeddedImage, EmbeddedImageError>)
    ensures
        match read {
            Ok(found) => {
                &&& embedded_error(image@, *block, max_image_size) is None
                &&& found.kind == block.payload_kind
                &&& found.data@ == image@.subrange(
                    payload_offset(*block) + 26,
                    payload_offset(*block) + block.length,
                )
            },
            Err(error) => embedded_error(image@, *block, max_image_size) == Some(error),
        },
{
    if !block.payload_kind.holds_image() {
        return Err(EmbeddedImageError::NotAnImage);
    }
    let header_size: usize = block.layout.header_size();
    if block.header_size != header_size as u32 {
        return Err(EmbeddedImageError::HeaderSizeChanged);
    }
    if block.layout == OemInfoLayout::Standard && block.offset % 0x1000 != 0 {
        return Err(EmbeddedImageError::Misaligned);
    }
    if block.offset > image.len() as u64 || header_size as u64 > image.len() as u64 - block.offset {
        return Err(EmbeddedImageError::HeaderTruncated);
    }
    let offset: usize = block.offset as usize;
    let start: usize = offset + header_size;
    if let Some(error) = validate_selected_block_header(&image[offset..start], block) {
        return Err(error);
    }
    if block.length < 28 {
        return Err(EmbeddedImageError::TooShort);
    }
    if (block.length - 26) as u64 > max_image_size {
        return Err(EmbeddedImageError::TooLarge);
    }
    if block.length as u64 > (image.len() - start) as u64 {
        return Err(EmbeddedImageError::PayloadTruncated);
    }
    if let Some(error) = validate_selected_image_header(&image[start..start + 28], block) {
        return Err(error);
    }
    Ok(
        OemInfoEmbeddedImage {
            kind: block.payload_kind,
            data: bytes::copy_range(image, start + IMAGE_DATA_OFFSET, start + block.length as usize),
        },
    )
}

/// Reads the image of a selected block, up to the size that is supported.
pub fn read_embedded_image(image: &[u8], block: &OemInfoBlockSummary) -> (read: Result<
    OemInfoEmbeddedImage,
    EmbeddedImageError,
>)
    ensures
        match read {
            Ok(found) => {
                &&& embedded_error(image@, *block, OEMINFO_MAX_EMBEDDED_IMAGE_SIZE) is None
                &&& found.kind == block.payload_kind
                &&& found.data@ == image@.subrange(
                    payload_offset(*block) + 26,
                    payload_offset(*block) + block.length,
                )
            },
            Err(error) => embedded_error(image@, *block, OEMINFO_MAX_EMBEDDED_IMAGE_SIZE) == Some(
                error,
            ),
        },
{
    read_embedded_image_with_limit(image, block, OEMINFO_MAX_EMBEDDED_IMAGE_SIZE)
}

/// The same bytes have the same padding, wherever they stand.
proof fn lemma_padding_moves(image: Seq<u8>, offset: int)
    requires
        0 <= offset,
        offset + 0x200 <= image.len(),
    ensures
        header::padding_at(image.subrange(offset, offset + 0x200), 0) == header::padding_at(
            image,
            offset,
        ),
{
    let h = image.subrange(offset, offset + 0x200);
    assert(h.subrange(28, 32) =~= image.subrange(offset + 28, offset + 32));
    assert(h.subrange(0x20, 0x40) =~= image.subrange(offset + 0x20, offset + 0x40));
    assert(h.subrange(0x20, 0x200) =~= image.subrange(offset + 0x20, offset + 0x200));
}

/// Every image that a parse of a file finds can be read from the same file, as
/// long as it is within the limit. The one exception is a block that was taken
/// for a reused one although its header is padded like a standard one.
pub proof fn law_found_images_are_read<F: Fn(&[u8]) -> bool>(
    judge: F,
    image: OemInfoImage,
    i: int,
    block: OemInfoBlockSummary,
    limit: u64,
)
    requires
        image.well_formed(),
        image.is_parse_of(judge, image.bytes()),
        0 <= i < image.parsed().len(),
        crate::oeminfo::summary::summarizes(image.parsed()[i], block),
        block.payload_kind.is_image(),
        block.length - 26 <= limit,
        block.layout == OemInfoLayout::Reused ==> header::padding_at(
            image.bytes(),
            block.offset as int,
        ) is None,
    ensures
        embedded_error(image.bytes(), block, limit) is None,
{
    let raw = image.bytes();
    let headers = crate::oeminfo::image_headers(raw);
    let parsed = image.parsed()[i];
    let h = parsed.header;
    let offset = h.offset as int;
    let start = h.payload_start();
    assert(image.headers()[i] == h);
    assert(h.fits(raw.len() as int));
    assert(headers[i] == h);
    lemma_header_source(raw, i);
    let payload = crate::oeminfo::payload_bytes(raw, h);
    payload::lemma_image_length(judge, payload, parsed.payload@);
    let hb = raw.subrange(offset, start);
    assert(payload_offset(block) == start);
    assert(bytes::stands_at(hb, 0, OEMINFO_MAGIC@)) by {
        assert(OEMINFO_MAGIC@.len() == 8);
        assert(hb.subrange(0, 8) =~= raw.subrange(offset, offset + 8));
    }
    assert forall|k: int| 0 <= k < 0x40 implies hb[k] == raw[offset + k] by {}
    if block.layout == OemInfoLayout::Reused {
        assert(hb.skip(0x20) =~= raw.subrange(offset + 0x20, offset + 0x40));
        assert(hb.subrange(28, 0x20) =~= raw.subrange(offset + 28, offset + 32));
    } else {
        lemma_padding_moves(raw, offset);
    }
    assert(header_error(hb, block) is None);
    let ih = raw.subrange(start, start + 28);
    assert forall|k: int| 0 <= k < 28 implies ih[k] == payload[k] by {}
    assert(ih.subrange(24, 28) =~= payload.subrange(24, 28));
    assert(ih.subrange(12, 24) =~= payload.subrange(12, 24));
    assert(image_header_error(ih, block) is None);
}

/// Each block of an image has a plausible header, of which at most the layout
/// was changed from a standard to a compact one.
proof fn lemma_header_source(raw: Seq<u8>, i: int)
    requires
        raw.len() <= usize::MAX,
        0 <= i < crate::oeminfo::image_headers(raw).len(),
    ensures
        ({
            let h = crate::oeminfo::image_headers(raw)[i];
            let at = h.offset as int;
            header::header_at(raw, at) matches Some(found) && {
                &&& found.offset == h.offset
                &&& found.version == h.version
                &&& found.id == h.id
                &&& found.sub_id == h.sub_id
                &&& found.length == h.length
                &&& found.age == h.age
                &&& found.header_size == h.header_size
                &&& found.header_padding_byte == h.header_padding_byte
                &&& found.layout == h.layout || (found.layout == OemInfoLayout::Standard && h.layout
                    == OemInfoLayout::StandardCompact)
            }
        }),
{
    let found = crate::oeminfo::candidates(raw);
    let apart = bank::kept(found, 0);
    header::lemma_magic_offsets(raw, 0);
    lemma_candidates(raw, header::magic_offsets(raw, 0));
    lemma_kept_from(found, 0, i);
    assert(bank::compacted(apart)[i].offset == apart[i].offset);
    let k = choose|k: int| 0 <= k < found.len() && found[k] == apart[i];
    assert(header::header_at(raw, found[k].offset as int) == Some(found[k]));
}

proof fn lemma_candidates(raw: Seq<u8>, offsets: Seq<int>)
    requires
        forall|k: int|
            0 <= k < offsets.len() ==> 0 <= #[trigger] offsets[k] <= usize::MAX,
    ensures
        forall|k: int|
            0 <= k < crate::oeminfo::headers_at(raw, offsets).len() ==> header::header_at(
                raw,
                (#[trigger] crate::oeminfo::headers_at(raw, offsets)[k]).offset as int,
            ) == Some(crate::oeminfo::headers_at(raw, offsets)[k]),
    decreases offsets.len(),
{
    if offsets.len() > 0 {
        lemma_candidates(raw, offsets.drop_last());
    }
}

proof fn lemma_kept_from(found: Seq<BlockHeader>, end: int, i: int)
    requires
        0 <= i < bank::kept(found, end).len(),
    ensures
        exists|k: int| 0 <= k < found.len() && found[k] == bank::kept(found, end)[i],
    decreases found.len(),
{
    if found.len() > 0 {
        let rest = found.skip(1);
        if found[0].offset < end {
            lemma_kept_from(rest, end, i);
            let k = choose|k: int| 0 <= k < rest.len() && rest[k] == bank::kept(rest, end)[i];
            assert(found[k + 1] == rest[k]);
        } else if i == 0 {
            assert(found[0] == bank::kept(found, end)[i]);
        } else {
            let next = found[0].end();
            lemma_kept_from(rest, next, i - 1);
            let k = choose|k: int| 0 <= k < rest.len() && rest[k] == bank::kept(rest, next)[i - 1];
            assert(found[k + 1] == rest[k]);
        }
    }
}

/// An image is read where its block is one that holds an image, its header is the
/// one that was selected, field by field, and its payload lies within the data and
/// has the image header that was found, with at most as many bytes as allowed.
#[verifier::rlimit(40)]
pub proof fn law_images_are_read_where_unchanged(
    image: Seq<u8>,
    block: OemInfoBlockSummary,
    limit: u64,
)
    requires
        embedded_error(image, block, limit) is None,
    ensures
        ({
            let at = block.offset as int;
            let start = at + block.header_size;
            &&& block.payload_kind == OemInfoPayloadKind::ImageRaw || block.payload_kind
                == OemInfoPayloadKind::ImageGzip
            &&& block.header_size == if block.layout == OemInfoLayout::Reused {
                64int
            } else {
                512int
            }
            &&& block.layout == OemInfoLayout::Standard ==> at % 4096 == 0
            &&& header::is_marked(image, at)
            &&& bytes::le32(image, at + 8) == block.version && 1 <= block.version <= 65_536
            &&& bytes::le32(image, at + 12) == block.id
            &&& bytes::le32(image, at + 16) == block.sub_id
            &&& bytes::le32(image, at + 20) == block.length
            &&& bytes::le32(image, at + 24) == block.age
            &&& start + block.length <= image.len()
            &&& 28 <= block.length <= 26 + limit
            &&& bytes::le32(image, start) == 26
            &&& bytes::le32(image, start + 4) == block.length + bytes::le32(image, start + 8)
            &&& block.image_random_adjust == Some(bytes::le32(image, start + 8) as u32)
            &&& image[start + 24] == 0 && image[start + 25] == 0
            &&& block.payload_kind == OemInfoPayloadKind::ImageGzip ==> image[start + 26] == 0x1f
                && image[start + 27] == 0x8b
            &&& block.payload_kind == OemInfoPayloadKind::ImageRaw ==> image[start + 26] == 0x42
                && image[start + 27] == 0x4d
        }),
{
    let at = block.offset as int;
    let start = payload_offset(block);
    let h = image.subrange(at, start);
    let p = image.subrange(start, start + 28);
    header::lemma_marked(h, 0);
    assert forall|i: int| 0 <= i < h.len() implies #[trigger] h[i] == image[at + i] by {}
    assert forall|i: int| 0 <= i < 28 implies #[trigger] p[i] == image[start + i] by {}
    assert(h[0] == image[at] && h[1] == image[at + 1] && h[2] == image[at + 2]);
    lemma_part_number(image, at, start, 8);
    lemma_part_number(image, at, start, 12);
    lemma_part_number(image, at, start, 16);
    lemma_part_number(image, at, start, 20);
    lemma_part_number(image, at, start, 24);
    lemma_part_number(image, start, start + 28, 0);
    lemma_part_number(image, start, start + 28, 4);
    lemma_part_number(image, start, start + 28, 8);
    let s = p.subrange(24, 28);
    assert(s[0] == p[24] && s[1] == p[25] && s[2] == p[26] && s[3] == p[27]);
    let gzip = seq![0u8, 0, 0x1f, 0x8b];
    let bitmap = seq![0u8, 0, 0x42, 0x4d];
    assert(gzip[0] == 0 && gzip[1] == 0 && gzip[2] == 0x1f && gzip[3] == 0x8b);
    assert(bitmap[0] == 0 && bitmap[1] == 0 && bitmap[2] == 0x42 && bitmap[3] == 0x4d);
}

proof fn lemma_part_number(data: Seq<u8>, from: int, to: int, at: int)
    requires
        0 <= from,
        to <= data.len(),
        0 <= at,
        from + at + 4 <= to,
    ensures
        bytes::le32(data.subrange(from, to), at) == bytes::le32(data, from + at),
{
}

/// What is wrong is said of the first thing that changed: the place and the size of
/// the block before its fields, and those before its payload.
pub proof fn law_changes_are_named(image: Seq<u8>, block: OemInfoBlockSummary, limit: u64)
    ensures
        match embedded_error(image, block, limit) {
            Some(EmbeddedImageError::NotAnImage) => block.payload_kind
                != OemInfoPayloadKind::ImageRaw && block.payload_kind
                != OemInfoPayloadKind::ImageGzip,
            Some(EmbeddedImageError::Misaligned) => block.layout == OemInfoLayout::Standard
                && block.offset % 4096 != 0,
            Some(EmbeddedImageError::HeaderTruncated) => block.offset + block.header_size
                > image.len(),
            Some(EmbeddedImageError::TooShort) => block.length < 28,
            Some(EmbeddedImageError::TooLarge) => block.length > 26 + limit,
            Some(EmbeddedImageError::PayloadTruncated) => block.offset + block.header_size
                + block.length > image.len(),
            Some(EmbeddedImageError::InvalidVersion) => block.version == 0 || block.version > 65_536,
            _ => true,
        },
{
}

} // verus!
