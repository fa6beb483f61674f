//! Replacing the boot logo of an OEMINFO image. The new generation goes to the
//! slot of the other bank, so that the old one stays until it is written.

use vstd::prelude::*;

use crate::bytes;
use crate::oeminfo::bank;
use crate::oeminfo::bmp;
use crate::oeminfo::bmp::BmpError;
use crate::oeminfo::codec;
use crate::oeminfo::codec::GzipError;
use crate::oeminfo::embedded::OEMINFO_MAX_EMBEDDED_IMAGE_SIZE;
use crate::oeminfo::header::{
    BlockHeader, OemInfoLayout, OEMINFO_MAGIC, OEMINFO_MAX_AGE, OEMINFO_STANDARD_HEADER_SIZE,
};
use crate::oeminfo::payload::{OemInfoPayloadKind, IMAGE_DATA_OFFSET};
use crate::oeminfo::{OemInfoError, OemInfoImage, ParsedBlock};

verus! {

pub const OEMINFO_BOOT_LOGO_ID: u32 = 4501;

/// What a replacement did.
#[derive(Debug, Clone)]
pub struct OemInfoBootLogoReplacement {
    pub backup_path: String,
    pub target_offset: u64,
    pub age: u32,
    pub payload_bytes: u64,
    pub payload_kind: OemInfoPayloadKind,
    pub width: u32,
    pub height: u32,
}

/// Why a boot logo cannot be replaced.
#[derive(Debug, Clone, Copy, PartialEq, Eq, Structural)]
pub enum LogoError {
    /// The replacement is no BMP image that can be stored.
    Replacement(BmpError),
    /// The image is no OEMINFO image.
    Image(OemInfoError),
    TooManyLogos,
    NoLogo,
    UnexpectedLayout,
    NoActiveLogo,
    SeveralActiveLogos,
    Compressed(GzipError),
    NotBmp,
    DimensionMismatch,
    Compression,
    PayloadTooLarge,
    AgeOverflow,
    SlotMisaligned,
    NoRoom,
    SlotOverlaps,
    /// What was written is not the active generation.
    NotActive,
    /// The active generation is not the one that was written.
    Mismatch,
    /// The written logo has other dimensions.
    DimensionsChanged,
}

/// What to write, and where.
#[derive(Debug)]
pub struct LogoPlan {
    pub target: usize,
    pub age: u32,
    pub payload_len: u32,
    pub block: Vec<u8>,
}

// ---------------------------------------------------------------------------
// Which copy is replaced
// ---------------------------------------------------------------------------

/// The blocks that hold a boot logo, by their index.
pub open spec fn logos(blocks: Seq<ParsedBlock>) -> Seq<int>
    decreases blocks.len(),
{
    if blocks.len() == 0 {
        seq![]
    } else {
        let before = logos(blocks.drop_last());
        if blocks.last().header.id == OEMINFO_BOOT_LOGO_ID {
            before.push(blocks.len() - 1)
        } else {
            before
        }
    }
}

/// True when a block has the layout in which logos are stored.
pub open spec fn stores_logo(b: ParsedBlock) -> bool {
    b.header.header_size == 0x200 && b.payload.kind.is_image()
}

/// The active logo, and the inactive one if there is one; each by its index.
pub open spec fn chosen(blocks: Seq<ParsedBlock>) -> Result<(int, Option<int>), LogoError> {
    let list = logos(blocks);
    if list.len() > 2 {
        Err(LogoError::TooManyLogos)
    } else if list.len() == 0 {
        Err(LogoError::NoLogo)
    } else if list.len() == 1 {
        let a = list[0];
        if !stores_logo(blocks[a]) {
            Err(LogoError::UnexpectedLayout)
        } else if !blocks[a].active {
            Err(LogoError::NoActiveLogo)
        } else {
            Ok((a, None))
        }
    } else {
        let a = list[0];
        let b = list[1];
        if !stores_logo(blocks[a]) || !stores_logo(blocks[b]) {
            Err(LogoError::UnexpectedLayout)
        } else if !blocks[a].active && !blocks[b].active {
            Err(LogoError::NoActiveLogo)
        } else if blocks[a].active && blocks[b].active {
            Err(LogoError::SeveralActiveLogos)
        } else if blocks[a].active {
            Ok((a, Some(b)))
        } else {
            Ok((b, Some(a)))
        }
    }
}

pub(crate) proof fn lemma_logos(blocks: Seq<ParsedBlock>)
    ensures
        forall|k: int|
            0 <= k < logos(blocks).len() ==> 0 <= #[trigger] logos(blocks)[k] < blocks.len()
                && blocks[logos(blocks)[k]].header.id == OEMINFO_BOOT_LOGO_ID,
    decreases blocks.len(),
{
    if blocks.len() > 0 {
        lemma_logos(blocks.drop_last());
    }
}

fn find_logos(blocks: &Vec<ParsedBlock>) -> (list: Vec<usize>)
    ensures
        list@.len() == logos(blocks@).len(),
        forall|k: int|
            0 <= k < list@.len() ==> #[trigger] list@[k] == logos(blocks@)[k] && list@[k]
                < blocks@.len() && blocks@[list@[k] as int].header.id == OEMINFO_BOOT_LOGO_ID,
{
    let mut list: Vec<usize> = Vec::new();
    let mut i: usize = 0;
    assert(blocks@.take(0) =~= Seq::<ParsedBlock>::empty());
    while i < blocks.len()
        invariant
            i <= blocks@.len(),
            list@.len() == logos(blocks@.take(i as int)).len(),
            forall|k: int|
                0 <= k < list@.len() ==> #[trigger] list@[k] == logos(blocks@.take(i as int))[k]
                    && list@[k] < i && blocks@[list@[k] as int].header.id == OEMINFO_BOOT_LOGO_ID,
        decreases blocks@.len() - i,
    {
        if blocks[i].header.id == OEMINFO_BOOT_LOGO_ID {
            list.push(i);
        }
        i += 1;
        assert(blocks@.take(i as int).drop_last() =~= blocks@.take(i - 1));
    }
    assert(blocks@.take(i as int) =~= blocks@);
    list
}

fn block_stores_logo(b: &ParsedBlock) -> (is: bool)
    ensures
        is == stores_logo(*b),
{
    b.header.header_size == OEMINFO_STANDARD_HEADER_SIZE && b.payload.kind.holds_image()
}

fn choose_logo(blocks: &Vec<ParsedBlock>) -> (choice: Result<(usize, Option<usize>), LogoError>)
    ensures
        match choice {
            Ok((source, spare)) => {
                &&& chosen(blocks@) == Ok::<(int, Option<int>), LogoError>(
                    (
                        source as int,
                        match spare {
                            Some(s) => Some(s as int),
                            None => None,
                        },
                    ),
                )
                &&& source < blocks@.len()
                &&& stores_logo(blocks@[source as int])
                &&& blocks@[source as int].header.id == OEMINFO_BOOT_LOGO_ID
                &&& spare matches Some(s) ==> s < blocks@.len() && stores_logo(blocks@[s as int])
            },
            Err(error) => chosen(blocks@) == Err::<(int, Option<int>), LogoError>(error),
        },
{
    let list = find_logos(blocks);
    if list.len() > 2 {
        return Err(LogoError::TooManyLogos);
    }
    if list.len() == 0 {
        return Err(LogoError::NoLogo);
    }
    let a: usize = list[0];
    if list.len() == 1 {
        if !block_stores_logo(&blocks[a]) {
            return Err(LogoError::UnexpectedLayout);
        }
        if !blocks[a].active {
            return Err(LogoError::NoActiveLogo);
        }
        return Ok((a, None));
    }
    let b: usize = list[1];
    if !block_stores_logo(&blocks[a]) || !block_stores_logo(&blocks[b]) {
        return Err(LogoError::UnexpectedLayout);
    }
    if !blocks[a].active && !blocks[b].active {
        return Err(LogoError::NoActiveLogo);
    }
    if blocks[a].active && blocks[b].active {
        return Err(LogoError::SeveralActiveLogos);
    }
    if blocks[a].active {
        Ok((a, Some(b)))
    } else {
        Ok((b, Some(a)))
    }
}

// ---------------------------------------------------------------------------
// The stored picture
// ---------------------------------------------------------------------------

/// The picture of a logo's payload, decompressed.
pub open spec fn stored_picture(kind: OemInfoPayloadKind, data: Seq<u8>) -> Result<
    Seq<u8>,
    LogoError,
> {
    let limit = OEMINFO_MAX_EMBEDDED_IMAGE_SIZE;
    match kind {
        OemInfoPayloadKind::ImageGzip => match codec::within_limit(
            codec::gunzipped(data, codec::one_more(limit)),
            limit,
        ) {
            Ok(picture) => Ok(picture),
            Err(error) => Err(LogoError::Compressed(error)),
        },
        OemInfoPayloadKind::ImageRaw => Ok(data),
        _ => Err(LogoError::UnexpectedLayout),
    }
}

/// The width and the height of a picture.
pub open spec fn picture_size(picture: Result<Seq<u8>, LogoError>) -> Result<(u32, u32), LogoError> {
    match picture {
        Err(error) => Err(error),
        Ok(data) => match bmp::header_of(data) {
            Some(info) => Ok((info.width, info.height)),
            None => Err(LogoError::NotBmp),
        },
    }
}

/// The width and the height of a block's logo.
pub open spec fn logo_size(raw: Seq<u8>, b: ParsedBlock) -> Result<(u32, u32), LogoError> {
    picture_size(
        stored_picture(b.payload.kind, raw.subrange(b.header.payload_start() + 26, b.header.end())),
    )
}

fn measure_picture(picture: &[u8]) -> (size: Result<(u32, u32), LogoError>)
    ensures
        size == picture_size(Ok(picture@)),
{
    match bmp::bmp_info(picture) {
        Some(info) => Ok((info.width, info.height)),
        None => Err(LogoError::NotBmp),
    }
}

fn read_logo_dimensions(raw: &[u8], b: &ParsedBlock) -> (size: Result<(u32, u32), LogoError>)
    requires
        b.header.fits(raw@.len() as int),
        b.payload.kind.is_image() ==> b.header.length >= 28,
    ensures
        size == logo_size(raw@, *b),
{
    if !b.payload.kind.holds_image() {
        return Err(LogoError::UnexpectedLayout);
    }
    assert(raw.len() <= usize::MAX);
    let start: usize = b.header.offset + b.header.header_size + IMAGE_DATA_OFFSET;
    let end: usize = b.header.offset + b.header.header_size + b.header.length as usize;
    let data = &raw[start..end];
    match b.payload.kind {
        OemInfoPayloadKind::ImageGzip => match codec::decompress_logo_gzip(
            data,
            OEMINFO_MAX_EMBEDDED_IMAGE_SIZE,
        ) {
            Ok(picture) => measure_picture(picture.as_slice()),
            Err(error) => Err(LogoError::Compressed(error)),
        },
        OemInfoPayloadKind::ImageRaw => measure_picture(data),
        _ => Err(LogoError::UnexpectedLayout),
    }
}

/// What a picture is stored as: compressed where the active logo is.
pub open spec fn stored_data(kind: OemInfoPayloadKind, picture: Seq<u8>) -> Option<Seq<u8>> {
    if kind == OemInfoPayloadKind::ImageGzip {
        codec::gzipped(picture)
    } else {
        Some(picture)
    }
}

// ---------------------------------------------------------------------------
// Where the new generation goes
// ---------------------------------------------------------------------------

/// The highest age among the logos.
pub open spec fn highest_age(blocks: Seq<ParsedBlock>) -> int
    decreases blocks.len(),
{
    if blocks.len() == 0 {
        0
    } else {
        let before = highest_age(blocks.drop_last());
        let b = blocks.last().header;
        if b.id == OEMINFO_BOOT_LOGO_ID && b.age > before {
            b.age as int
        } else {
            before
        }
    }
}

fn find_highest_age(blocks: &Vec<ParsedBlock>) -> (age: u32)
    ensures
        age == highest_age(blocks@),
{
    let mut age: u32 = 0;
    let mut i: usize = 0;
    assert(blocks@.take(0) =~= Seq::<ParsedBlock>::empty());
    while i < blocks.len()
        invariant
            i <= blocks@.len(),
            age == highest_age(blocks@.take(i as int)),
        decreases blocks@.len() - i,
    {
        let h = blocks[i].header;
        if h.id == OEMINFO_BOOT_LOGO_ID && h.age > age {
            age = h.age;
        }
        i += 1;
        assert(blocks@.take(i as int).drop_last() =~= blocks@.take(i - 1));
    }
    assert(blocks@.take(i as int) =~= blocks@);
    age
}

/// The slot of the new generation: that of the inactive logo, or the mirror of
/// the active one in the other bank.
pub open spec fn slot(
    source: BlockHeader,
    spare: Option<BlockHeader>,
    region_size: int,
) -> Result<int, LogoError> {
    match spare {
        Some(h) => Ok(h.offset as int),
        None => {
            let mirror = if source.offset < region_size {
                source.offset + region_size
            } else {
                source.offset - region_size
            };
            if mirror % 0x1000 != 0 {
                Err(LogoError::SlotMisaligned)
            } else {
                Ok(mirror)
            }
        },
    }
}

/// Where a block of the given end has its aligned end.
pub open spec fn aligned_end(end: int) -> int {
    (end + 0xfff) / 0x1000 * 0x1000
}

/// The end of what is written: that of the new block, and of the block that
/// it takes the place of.
pub open spec fn write_end(blocks: Seq<ParsedBlock>, target: int, payload_len: int) -> int
    decreases blocks.len(),
{
    if blocks.len() == 0 {
        aligned_end(target + 0x200 + payload_len)
    } else {
        let h = blocks[0].header;
        if h.offset == target {
            let fresh = aligned_end(target + 0x200 + payload_len);
            let old = aligned_end(h.end());
            if old > fresh {
                old
            } else {
                fresh
            }
        } else {
            write_end(blocks.skip(1), target, payload_len)
        }
    }
}

/// The end of the bank that holds `target`.
pub open spec fn bank_end(target: int, region_size: int, file_size: int) -> int {
    if target < region_size {
        region_size
    } else if 2 * region_size < file_size {
        2 * region_size
    } else {
        file_size
    }
}

/// True when the bytes from `target` up to `end` lie within the file and the
/// bank, and no other block starts among them.
pub open spec fn has_room(
    blocks: Seq<ParsedBlock>,
    target: int,
    end: int,
    region_size: int,
    file_size: int,
) -> bool {
    &&& end <= file_size
    &&& end <= bank_end(target, region_size, file_size)
    &&& forall|i: int|
        0 <= i < blocks.len() && (#[trigger] blocks[i]).header.offset > target ==> end
            <= blocks[i].header.offset
}

/// True when no other block reaches into the bytes from `target` up to `end`.
pub open spec fn is_clear(blocks: Seq<ParsedBlock>, target: int, end: int) -> bool {
    forall|i: int|
        0 <= i < blocks.len() && (#[trigger] blocks[i]).header.offset != target
            ==> blocks[i].header.offset >= end || blocks[i].header.end() <= target
}

fn find_write_end(
    blocks: &Vec<ParsedBlock>,
    target: usize,
    payload_len: u32,
    size: Ghost<int>,
) -> (end: u128)
    requires
        size@ <= usize::MAX,
        forall|i: int| 0 <= i < blocks@.len() ==> (#[trigger] blocks@[i]).header.fits(size@),
    ensures
        end == write_end(blocks@, target as int, payload_len as int),
        end >= target + 0x200 + payload_len,
{
    let fresh: u128 = (target as u128 + 0x200 + payload_len as u128 + 0xfff) / 0x1000 * 0x1000;
    let mut i: usize = 0;
    assert(blocks@.skip(0) =~= blocks@);
    while i < blocks.len()
        invariant
            i <= blocks@.len(),
            size@ <= usize::MAX,
            forall|k: int| 0 <= k < blocks@.len() ==> (#[trigger] blocks@[k]).header.fits(size@),
            fresh == aligned_end(target + 0x200 + payload_len),
            fresh >= target + 0x200 + payload_len,
            write_end(blocks@, target as int, payload_len as int) == write_end(
                blocks@.skip(i as int),
                target as int,
                payload_len as int,
            ),
        decreases blocks@.len() - i,
    {
        let h = blocks[i].header;
        assert(blocks@[i as int].header.fits(size@));
        if h.offset == target {
            let old_end: u128 = (h.offset as u128 + h.header_size as u128 + h.length as u128 + 0xfff)
                / 0x1000 * 0x1000;
            return if old_end > fresh {
                old_end
            } else {
                fresh
            };
        }
        assert(blocks@.skip(i as int).skip(1) =~= blocks@.skip(i + 1));
        i += 1;
    }
    fresh
}

fn check_slot(
    blocks: &Vec<ParsedBlock>,
    target: usize,
    end: u128,
    region_size: usize,
    file_size: usize,
) -> (error: Option<LogoError>)
    requires
        forall|i: int|
            0 <= i < blocks@.len() ==> (#[trigger] blocks@[i]).header.fits(file_size as int),
    ensures
        ({
            let room = has_room(
                blocks@,
                target as int,
                end as int,
                region_size as int,
                file_size as int,
            );
            match error {
                None => room && is_clear(blocks@, target as int, end as int),
                Some(LogoError::NoRoom) => !room,
                Some(LogoError::SlotOverlaps) => room && !is_clear(
                    blocks@,
                    target as int,
                    end as int,
                ),
                Some(_) => false,
            }
        }),
{
    let limit: usize = if target < region_size {
        region_size
    } else if region_size < file_size && region_size < file_size - region_size {
        region_size + region_size
    } else {
        file_size
    };
    assert(limit == bank_end(target as int, region_size as int, file_size as int));
    if end > file_size as u128 || end > limit as u128 {
        return Some(LogoError::NoRoom);
    }
    let mut i: usize = 0;
    while i < blocks.len()
        invariant
            i <= blocks@.len(),
            forall|k: int|
                0 <= k < i && (#[trigger] blocks@[k]).header.offset > target ==> end
                    <= blocks@[k].header.offset,
        decreases blocks@.len() - i,
    {
        let offset: usize = blocks[i].header.offset;
        if offset > target && end > offset as u128 {
            assert(blocks@[i as int].header.offset > target);
            return Some(LogoError::NoRoom);
        }
        i += 1;
    }
    let mut j: usize = 0;
    while j < blocks.len()
        invariant
            j <= blocks@.len(),
            forall|i: int|
                0 <= i < blocks@.len() ==> (#[trigger] blocks@[i]).header.fits(file_size as int),
            has_room(blocks@, target as int, end as int, region_size as int, file_size as int),
            forall|k: int|
                0 <= k < j && (#[trigger] blocks@[k]).header.offset != target
                    ==> blocks@[k].header.offset >= end || blocks@[k].header.end() <= target,
        decreases blocks@.len() - j,
    {
        let h = blocks[j].header;
        assert(blocks@[j as int].header.fits(file_size as int));
        if h.offset != target {
            let block_end: usize = h.offset + h.header_size + h.length as usize;
            if !(h.offset as u128 >= end || block_end <= target) {
                assert(blocks@[j as int].header.offset != target);
                return Some(LogoError::SlotOverlaps);
            }
        }
        j += 1;
    }
    None
}

// ---------------------------------------------------------------------------
// The new block
// ---------------------------------------------------------------------------

/// The least multiple of sixteen from `n` on.
pub open spec fn image_end(n: int) -> int {
    (n + 15) / 16 * 16
}

/// The bytes of the new block: its header, the header of the image, and the
/// image itself, filled up to `size` bytes with 0xff.
pub open spec fn block_bytes(
    version: int,
    age: int,
    image_version: Seq<u8>,
    data: Seq<u8>,
    size: int,
) -> Seq<u8> {
    let n: int = 26 + data.len() as int;
    OEMINFO_MAGIC@ + bytes::bytes32(version) + bytes::bytes32(OEMINFO_BOOT_LOGO_ID as int)
        + bytes::bytes32((n + 511) / 512) + bytes::bytes32(n) + bytes::bytes32(age)
        + bytes::filled(0xff, 0x200 - 28) + bytes::bytes32(26) + bytes::bytes32(
        image_end(n),
    ) + bytes::bytes32(image_end(n) - n) + image_version + seq![0u8, 0] + data
        + bytes::filled(0xff, size - 0x200 - n)
}

fn build_block(version: u32, age: u32, image_version: &[u8], data: &[u8], size: usize) -> (block: Vec<
    u8,
>)
    requires
        26 + data@.len() <= 0xffff_fff0,
        0x200 + 26 + data@.len() <= size,
    ensures
        block@ == block_bytes(
            version as int,
            age as int,
            image_version@,
            data@,
            size as int,
        ),
{
    let n: u32 = 26 + data.len() as u32;
    let end_offset: u32 = ((n as u64 + 15) / 16 * 16) as u32;
    let units: u32 = ((n as u64 + 511) / 512) as u32;
    let mut block: Vec<u8> = Vec::new();
    bytes::push_all(&mut block, OEMINFO_MAGIC.as_slice());
    bytes::push_u32(&mut block, version);
    bytes::push_u32(&mut block, OEMINFO_BOOT_LOGO_ID);
    bytes::push_u32(&mut block, units);
    bytes::push_u32(&mut block, n);
    bytes::push_u32(&mut block, age);
    bytes::push_filled(&mut block, 0xff, OEMINFO_STANDARD_HEADER_SIZE - 28);
    bytes::push_u32(&mut block, IMAGE_DATA_OFFSET as u32);
    bytes::push_u32(&mut block, end_offset);
    bytes::push_u32(&mut block, end_offset - n);
    bytes::push_all(&mut block, image_version);
    block.push(0);
    block.push(0);
    bytes::push_all(&mut block, data);
    bytes::push_filled(&mut block, 0xff, size - OEMINFO_STANDARD_HEADER_SIZE - n as usize);
    assert(block@ =~= block_bytes(
        version as int,
        age as int,
        image_version@,
        data@,
        size as int,
    ));
    block
}

/// The values of a plan.
#[verifier::ext_equal]
pub struct PlanModel {
    pub target: int,
    pub age: int,
    pub payload_len: int,
    pub block: Seq<u8>,
}

impl View for LogoPlan {
    type V = PlanModel;

    open spec fn view(&self) -> PlanModel {
        PlanModel {
            target: self.target as int,
            age: self.age as int,
            payload_len: self.payload_len as int,
            block: self.block@,
        }
    }
}

/// What is planned once it is known which logo is replaced, and how its
/// replacement is stored.
pub open spec fn placed(
    raw: Seq<u8>,
    blocks: Seq<ParsedBlock>,
    region_size: int,
    source: int,
    spare: Option<int>,
    data: Seq<u8>,
) -> Result<PlanModel, LogoError> {
    let n = 26 + data.len();
    let age = highest_age(blocks) + 1;
    let h = blocks[source].header;
    let spare_header = match spare {
        Some(i) => Some(blocks[i].header),
        None => None,
    };
    if n > 0xffff_fff0 {
        Err(LogoError::PayloadTooLarge)
    } else if age > OEMINFO_MAX_AGE {
        Err(LogoError::AgeOverflow)
    } else {
        match slot(h, spare_header, region_size) {
            Err(error) => Err(error),
            Ok(target) => {
                let end = write_end(blocks, target, n as int);
                if !has_room(blocks, target, end, region_size, raw.len() as int) {
                    Err(LogoError::NoRoom)
                } else if !is_clear(blocks, target, end) {
                    Err(LogoError::SlotOverlaps)
                } else {
                    Ok(
                        PlanModel {
                            target,
                            age,
                            payload_len: n as int,
                            block: block_bytes(
                                h.version as int,
                                age,
                                raw.subrange(h.payload_start() + 12, h.payload_start() + 24),
                                data,
                                end - target,
                            ),
                        },
                    )
                }
            },
        }
    }
}

/// What is planned for an image and a replacement picture.
pub open spec fn planned(
    raw: Seq<u8>,
    blocks: Seq<ParsedBlock>,
    region_size: int,
    picture: Seq<u8>,
    width: u32,
    height: u32,
) -> Result<PlanModel, LogoError> {
    match chosen(blocks) {
        Err(error) => Err(error),
        Ok((source, spare)) => match logo_size(raw, blocks[source]) {
            Err(error) => Err(error),
            Ok(size) => if size != (width, height) {
                Err(LogoError::DimensionMismatch)
            } else {
                match stored_data(blocks[source].payload.kind, picture) {
                    None => Err(LogoError::Compression),
                    Some(data) => placed(raw, blocks, region_size, source, spare, data),
                }
            },
        },
    }
}

fn find_slot(source: &BlockHeader, spare: Option<BlockHeader>, region_size: usize) -> (
found: Result<u128, LogoError>)
    ensures
        match found {
            Ok(target) => slot(*source, spare, region_size as int) == Ok::<int, LogoError>(
                target as int,
            ),
            Err(error) => slot(*source, spare, region_size as int) == Err::<int, LogoError>(error),
        },
{
    match spare {
        Some(h) => Ok(h.offset as u128),
        None => {
            let mirror: u128 = if source.offset < region_size {
                source.offset as u128 + region_size as u128
            } else {
                (source.offset - region_size) as u128
            };
            if mirror % 0x1000 != 0 {
                Err(LogoError::SlotMisaligned)
            } else {
                Ok(mirror)
            }
        },
    }
}

fn place_logo(
    raw: &[u8],
    blocks: &Vec<ParsedBlock>,
    region_size: usize,
    source: usize,
    spare: Option<usize>,
    data: &[u8],
) -> (plan: Result<LogoPlan, LogoError>)
    requires
        forall|i: int|
            0 <= i < blocks@.len() ==> (#[trigger] blocks@[i]).header.fits(raw@.len() as int),
        source < blocks@.len(),
        blocks@[source as int].header.length >= 28,
        spare matches Some(s) ==> s < blocks@.len(),
    ensures
        ({
            let model = placed(
                raw@,
                blocks@,
                region_size as int,
                source as int,
                match spare {
                    Some(s) => Some(s as int),
                    None => None,
                },
                data@,
            );
            match plan {
                Ok(found) => model == Ok::<PlanModel, LogoError>(found@) && planned_data(found@)
                    == data@,
                Err(error) => model == Err::<PlanModel, LogoError>(error),
            }
        }),
{
    let size: Ghost<int> = Ghost(raw@.len() as int);
    if data.len() as u64 > 0xffff_fff0 - 26 {
        return Err(LogoError::PayloadTooLarge);
    }
    let n: u32 = 26 + data.len() as u32;
    let highest: u32 = find_highest_age(blocks);
    if highest >= OEMINFO_MAX_AGE {
        return Err(LogoError::AgeOverflow);
    }
    let age: u32 = highest + 1;
    let h = blocks[source].header;
    assert(blocks@[source as int].header.fits(size@));
    let spare_header: Option<BlockHeader> = match spare {
        Some(s) => {
            assert(blocks@[s as int].header.fits(size@));
            Some(blocks[s].header)
        },
        None => None,
    };
    let wide_target: u128 = match find_slot(&h, spare_header, region_size) {
        Ok(target) => target,
        Err(error) => {
            return Err(error);
        },
    };
    if wide_target > raw.len() as u128 {
        proof {
            let end = write_end(blocks@, wide_target as int, n as int);
            lemma_write_end(blocks@, wide_target as int, n as int);
            assert(end > raw@.len());
        }
        return Err(LogoError::NoRoom);
    }
    let target: usize = wide_target as usize;
    assert(raw.len() <= usize::MAX);
    let end: u128 = find_write_end(blocks, target, n, size);
    if let Some(error) = check_slot(blocks, target, end, region_size, raw.len()) {
        return Err(error);
    }
    let start: usize = h.offset + h.header_size;
    let image_version = bytes::copy_range(raw, start + 12, start + 24);
    let block = build_block(
        h.version,
        age,
        image_version.as_slice(),
        data,
        end as usize - target,
    );
    proof {
        lemma_block_data(
            h.version as int,
            age as int,
            image_version@,
            data@,
            end - target,
        );
    }
    Ok(LogoPlan { target, age, payload_len: n, block })
}

/// What is written reaches at least to the end of the new payload.
pub(crate) proof fn lemma_write_end(blocks: Seq<ParsedBlock>, target: int, payload_len: int)
    requires
        0 <= target,
        0 <= payload_len,
    ensures
        write_end(blocks, target, payload_len) >= target + 0x200 + payload_len,
    decreases blocks.len(),
{
    if blocks.len() > 0 && blocks[0].header.offset != target {
        lemma_write_end(blocks.skip(1), target, payload_len);
    }
}

/// The stored data of a planned block.
pub open spec fn planned_data(plan: PlanModel) -> Seq<u8> {
    plan.block.subrange(0x21a, 0x200 + plan.payload_len)
}

proof fn lemma_block_data(version: int, age: int, image_version: Seq<u8>, data: Seq<u8>, size: int)
    requires
        image_version.len() == 12,
        0x200 + 26 + data.len() <= size,
    ensures
        block_bytes(version, age, image_version, data, size).subrange(0x21a, 0x21aint + data.len())
            == data,
{
    let b = block_bytes(version, age, image_version, data, size);
    assert(OEMINFO_MAGIC@.len() == 8);
    assert(b.subrange(0x21a, 0x21aint + data.len()) =~= data);
}

/// Plans the replacement of the boot logo of a parsed image by a stored
/// picture of the given width and height. What is stored of a picture that is
/// not too large gives the picture back.
pub fn plan_boot_logo(image: &OemInfoImage, picture: &[u8], width: u32, height: u32) -> (plan: Result<
    LogoPlan,
    LogoError,
>)
    requires
        image.well_formed(),
    ensures
        match plan {
            Ok(found) => {
                &&& planned(
                    image.bytes(),
                    image.parsed(),
                    image.bank_size(),
                    picture@,
                    width,
                    height,
                ) == Ok::<PlanModel, LogoError>(found@)
                &&& picture@.len() <= OEMINFO_MAX_EMBEDDED_IMAGE_SIZE ==> stored_picture(
                    image.parsed()[chosen(image.parsed())->Ok_0.0].payload.kind,
                    planned_data(found@),
                ) == Ok::<Seq<u8>, LogoError>(picture@)
            },
            Err(error) => planned(
                image.bytes(),
                image.parsed(),
                image.bank_size(),
                picture@,
                width,
                height,
            ) == Err::<PlanModel, LogoError>(error),
        },
{
    let (source, spare) = match choose_logo(&image.blocks) {
        Ok(choice) => choice,
        Err(error) => {
            return Err(error);
        },
    };
    proof {
        assert forall|i: int| 0 <= i < image.parsed().len() implies (
        #[trigger] image.parsed()[i]).header.fits(image.bytes().len() as int) by {
            assert(image.headers()[i] == image.parsed()[i].header);
            assert(image.headers()[i].fits(image.bytes().len() as int));
        }
        assert(image.parsed()[source as int].payload.kind.is_image());
    }
    match read_logo_dimensions(image.raw.as_slice(), &image.blocks[source]) {
        Err(error) => {
            return Err(error);
        },
        Ok((logo_width, logo_height)) => {
            if logo_width != width || logo_height != height {
                return Err(LogoError::DimensionMismatch);
            }
        },
    }
    if image.blocks[source].payload.kind == OemInfoPayloadKind::ImageGzip {
        match codec::gzip(picture) {
            None => Err(LogoError::Compression),
            Some(data) => place_logo(
                image.raw.as_slice(),
                &image.blocks,
                image.region_size,
                source,
                spare,
                data.as_slice(),
            ),
        }
    } else {
        place_logo(
            image.raw.as_slice(),
            &image.blocks,
            image.region_size,
            source,
            spare,
            picture,
        )
    }
}

/// True when `outcome` is what is planned for some parse of the image.
pub open spec fn plans_for<F: Fn(&[u8]) -> bool>(
    judge: F,
    original: Seq<u8>,
    picture: Seq<u8>,
    width: u32,
    height: u32,
    outcome: Result<PlanModel, LogoError>,
) -> bool {
    exists|image: OemInfoImage|
        #![trigger image.well_formed()]
        image.is_parse_of(judge, original) && image.well_formed() && planned(
            image.bytes(),
            image.parsed(),
            image.bank_size(),
            picture,
            width,
            height,
        ) == outcome
}

/// Plans the replacement of the boot logo of an image by a supplied BMP file.
/// Gives what to write, with the width and the height of the logo.
pub fn replace_boot_logo<F: Fn(&[u8]) -> bool>(
    original: Vec<u8>,
    replacement: &[u8],
    high_entropy: &F,
) -> (plan: Result<(LogoPlan, u32, u32), LogoError>)
    requires
        forall|slice: &[u8]| call_requires(*high_entropy, (slice,)),
    ensures
        match codec::transcoded(replacement@) {
            Err(error) => plan == Err::<(LogoPlan, u32, u32), LogoError>(
                LogoError::Replacement(error),
            ),
            Ok((picture, width, height)) => if original@.len() < 0x40 {
                plan == Err::<(LogoPlan, u32, u32), LogoError>(
                    LogoError::Image(OemInfoError::TooSmall),
                )
            } else if crate::oeminfo::candidates(original@).len() == 0 {
                plan == Err::<(LogoPlan, u32, u32), LogoError>(
                    LogoError::Image(OemInfoError::NoBlocks),
                )
            } else {
                plans_for(
                    *high_entropy,
                    original@,
                    picture,
                    width,
                    height,
                    match plan {
                        Ok((found, _, _)) => Ok(found@),
                        Err(error) => Err(error),
                    },
                ) && (plan matches Ok((_, w, h)) ==> w == width && h == height)
            },
        },
{
    let (picture, width, height) = match codec::transcode_replacement_bmp(replacement) {
        Ok(stored) => stored,
        Err(error) => {
            return Err(LogoError::Replacement(error));
        },
    };
    let ghost bytes = original@;
    let image = match OemInfoImage::from_bytes(original, high_entropy) {
        Ok(image) => image,
        Err(error) => {
            return Err(LogoError::Image(error));
        },
    };
    assert(image.well_formed());
    match plan_boot_logo(&image, picture.as_slice(), width, height) {
        Ok(plan) => Ok((plan, width, height)),
        Err(error) => Err(error),
    }
}

/// The first active logo among the blocks from `from` on, by its index.
pub open spec fn active_logo(blocks: Seq<ParsedBlock>, from: int) -> Option<int>
    decreases blocks.len() - from,
{
    if from < 0 || from >= blocks.len() {
        None
    } else if blocks[from].header.id == OEMINFO_BOOT_LOGO_ID && blocks[from].active {
        Some(from)
    } else {
        active_logo(blocks, from + 1)
    }
}

/// What is wrong with the image that a plan was written to.
pub open spec fn commit_error(
    raw: Seq<u8>,
    blocks: Seq<ParsedBlock>,
    plan: PlanModel,
    width: u32,
    height: u32,
) -> Option<LogoError> {
    match active_logo(blocks, 0) {
        None => Some(LogoError::NotActive),
        Some(i) => if blocks[i].header.offset != plan.target || blocks[i].header.age != plan.age {
            Some(LogoError::Mismatch)
        } else {
            match logo_size(raw, blocks[i]) {
                Err(error) => Some(error),
                Ok(size) => if size != (width, height) {
                    Some(LogoError::DimensionsChanged)
                } else {
                    None
                },
            }
        },
    }
}

/// Checks a parsed image that a plan was written to.
pub fn confirm_boot_logo(
    image: &OemInfoImage,
    plan: &LogoPlan,
    width: u32,
    height: u32,
    backup_path: String,
) -> (replacement: Result<OemInfoBootLogoReplacement, LogoError>)
    requires
        image.well_formed(),
    ensures
        match replacement {
            Ok(done) => {
                &&& commit_error(image.bytes(), image.parsed(), plan@, width, height) is None
                &&& done.backup_path@ == backup_path@
                &&& done.target_offset == plan.target
                &&& done.age == plan.age
                &&& done.payload_bytes == plan.payload_len
                &&& done.payload_kind
                    == image.parsed()[active_logo(image.parsed(), 0)->0].payload.kind
                &&& done.width == width
                &&& done.height == height
            },
            Err(error) => commit_error(image.bytes(), image.parsed(), plan@, width, height) == Some(
                error,
            ),
        },
{
    let mut i: usize = 0;
    while i < image.blocks.len() && !(image.blocks[i].header.id == OEMINFO_BOOT_LOGO_ID
        && image.blocks[i].active)
        invariant
            i <= image.blocks@.len(),
            active_logo(image.blocks@, 0) == active_logo(image.blocks@, i as int),
        decreases image.blocks@.len() - i,
    {
        i += 1;
    }
    if i >= image.blocks.len() {
        return Err(LogoError::NotActive);
    }
    assert(active_logo(image.parsed(), 0) == Some(i as int));
    let active = &image.blocks[i];
    if active.header.offset != plan.target || active.header.age != plan.age {
        return Err(LogoError::Mismatch);
    }
    assert(image.headers()[i as int] == image.parsed()[i as int].header);
    assert(image.headers()[i as int].fits(image.bytes().len() as int));
    match read_logo_dimensions(image.raw.as_slice(), active) {
        Err(error) => Err(error),
        Ok((found_width, found_height)) => if found_width != width || found_height != height {
            Err(LogoError::DimensionsChanged)
        } else {
            Ok(
                OemInfoBootLogoReplacement {
                    backup_path,
                    target_offset: plan.target as u64,
                    age: plan.age,
                    payload_bytes: plan.payload_len as u64,
                    payload_kind: active.payload.kind,
                    width,
                    height,
                },
            )
        },
    }
}

// ---------------------------------------------------------------------------
// Laws
// ---------------------------------------------------------------------------

pub(crate) proof fn lemma_chosen(blocks: Seq<ParsedBlock>)
    ensures
        match chosen(blocks) {
            Ok((source, spare)) => {
                &&& 0 <= source < blocks.len()
                &&& stores_logo(blocks[source])
                &&& spare matches Some(s) ==> 0 <= s < blocks.len()
            },
            Err(_) => true,
        },
{
    lemma_logos(blocks);
    let list = logos(blocks);
    if list.len() >= 1 {
        assert(0 <= list[0] < blocks.len());
    }
    if list.len() >= 2 {
        assert(0 <= list[1] < blocks.len());
    }
}

pub(crate) proof fn lemma_block_length(
    version: int,
    age: int,
    image_version: Seq<u8>,
    data: Seq<u8>,
    size: int,
)
    requires
        image_version.len() == 12,
        size >= 0x200 + 26 + data.len(),
    ensures
        block_bytes(version, age, image_version, data, size).len() == size,
{
    assert(OEMINFO_MAGIC@.len() == 8);
}

/// Writing a new block changes nothing outside of it.
pub proof fn law_rest_of_the_image_stays(raw: Seq<u8>, target: int, block: Seq<u8>)
    requires
        0 <= target,
        target + block.len() <= raw.len(),
    ensures
        bytes::patched(raw, target, block).len() == raw.len(),
        bytes::patched(raw, target, block).subrange(target, target + block.len()) == block,
        forall|i: int|
            0 <= i < raw.len() && !(target <= i < target + block.len()) ==> #[trigger] bytes::patched(
                raw,
                target,
                block,
            )[i] == raw[i],
{
    assert(bytes::patched(raw, target, block).subrange(target, target + block.len()) =~= block);
}

/// A plan that was made keeps clear of every other block: what it writes lies
/// within the image and the bank of its slot, and the bytes of every block
/// that starts elsewhere stay as they were.
pub proof fn law_plan_spares_other_blocks(
    raw: Seq<u8>,
    blocks: Seq<ParsedBlock>,
    region_size: int,
    picture: Seq<u8>,
    width: u32,
    height: u32,
    i: int,
)
    requires
        planned(raw, blocks, region_size, picture, width, height) is Ok,
        0 <= region_size,
        forall|k: int|
            0 <= k < blocks.len() ==> (#[trigger] blocks[k]).header.fits(raw.len() as int) && (
            blocks[k].payload.kind.is_image() ==> blocks[k].header.length >= 28),
        0 <= i < blocks.len(),
        blocks[i].header.offset != planned(
            raw,
            blocks,
            region_size,
            picture,
            width,
            height,
        )->Ok_0.target,
    ensures
        ({
            let plan = planned(raw, blocks, region_size, picture, width, height)->Ok_0;
            let written = bytes::patched(raw, plan.target, plan.block);
            let h = blocks[i].header;
            &&& 0 <= plan.target
            &&& plan.target + plan.block.len() <= raw.len()
            &&& plan.target + plan.block.len() <= bank_end(
                plan.target,
                region_size,
                raw.len() as int,
            )
            &&& written.len() == raw.len()
            &&& written.subrange(h.offset as int, h.end()) == raw.subrange(
                h.offset as int,
                h.end(),
            )
        }),
{
    let plan = planned(raw, blocks, region_size, picture, width, height)->Ok_0;
    lemma_chosen(blocks);
    let (source, spare) = chosen(blocks)->Ok_0;
    let data = stored_data(blocks[source].payload.kind, picture)->Some_0;
    let n = 26 + data.len() as int;
    let end = write_end(blocks, plan.target, n);
    lemma_write_end(blocks, plan.target, n);
    assert(blocks[source].header.fits(raw.len() as int));
    assert(blocks[source].payload.kind.is_image());
    lemma_block_length(
        blocks[source].header.version as int,
        plan.age,
        raw.subrange(
            blocks[source].header.payload_start() + 12,
            blocks[source].header.payload_start() + 24,
        ),
        data,
        end - plan.target,
    );
    let h = blocks[i].header;
    assert(h.fits(raw.len() as int));
    law_rest_of_the_image_stays(raw, plan.target, plan.block);
    let written = bytes::patched(raw, plan.target, plan.block);
    assert(written.subrange(h.offset as int, h.end()) =~= raw.subrange(h.offset as int, h.end()));
}

/// The header of the new generation, where it was written: a logo of the given
/// version and age whose length is that of its payload.
pub open spec fn new_header(
    target: int,
    version: int,
    age: int,
    payload_len: int,
) -> BlockHeader {
    BlockHeader {
        offset: target as usize,
        version: version as u32,
        id: OEMINFO_BOOT_LOGO_ID,
        sub_id: ((payload_len + 511) / 512) as u32,
        length: payload_len as u32,
        age: age as u32,
        header_size: 0x200,
        layout: if target % 0x1000 == 0 {
            OemInfoLayout::Standard
        } else {
            OemInfoLayout::StandardCompact
        },
        header_padding_byte: 0xff,
    }
}

/// A new block that was written reads back as a logo block of its version and
/// age, whose payload is an image that ends with the data.
pub proof fn law_written_block_reads_back(
    raw: Seq<u8>,
    target: int,
    version: int,
    age: int,
    image_version: Seq<u8>,
    data: Seq<u8>,
    size: int,
)
    requires
        0 < version <= crate::oeminfo::header::MAX_PLAUSIBLE_VERSION,
        0 <= age <= OEMINFO_MAX_AGE,
        image_version.len() == 12,
        data.len() >= 2,
        26 + data.len() <= 0xffff_fff0,
        0x200 + 26 + data.len() <= size,
        0 <= target,
        target + size <= raw.len() <= usize::MAX,
    ensures
        ({
            let block = block_bytes(version, age, image_version, data, size);
            let written = bytes::patched(raw, target, block);
            let h = new_header(target, version, age, 26 + data.len() as int);
            let payload = written.subrange(h.payload_start(), h.end());
            &&& crate::oeminfo::header::header_at(written, target) == Some(h)
            &&& payload.skip(26) == data
            &&& payload.subrange(12, 24) == image_version
            &&& bytes::le32(payload, 0) == 26
            &&& bytes::le32(payload, 4) - bytes::le32(payload, 8) == payload.len()
            &&& payload.subrange(24, 28) == seq![0u8, 0, data[0], data[1]]
        }),
{
    let block = block_bytes(version, age, image_version, data, size);
    lemma_block_length(version, age, image_version, data, size);
    lemma_block_fields(version, age, image_version, data, size);
    lemma_block_read(raw, target, block, version, age, image_version, data);
}

/// The header of a block with the right fields reads back.
#[verifier::spinoff_prover]
pub(crate) proof fn lemma_block_header(
    raw: Seq<u8>,
    target: int,
    block: Seq<u8>,
    version: int,
    age: int,
    image_version: Seq<u8>,
    data: Seq<u8>,
)
    requires
        has_block_fields(block, version, age, image_version, data),
        0 < version <= crate::oeminfo::header::MAX_PLAUSIBLE_VERSION,
        0 <= age <= OEMINFO_MAX_AGE,
        26 + data.len() <= 0xffff_fff0,
        0x200 + 26 + data.len() <= block.len(),
        0 <= target,
        target + block.len() <= raw.len() <= usize::MAX,
    ensures
        ({
            let written = bytes::patched(raw, target, block);
            let h = new_header(target, version, age, 26 + data.len() as int);
            &&& crate::oeminfo::header::header_at(written, target) == Some(h)
            &&& bytes::stands_at(written, target, OEMINFO_MAGIC@)
        }),
{
    let n: int = 26 + data.len() as int;
    let size = block.len() as int;
    let written = bytes::patched(raw, target, block);
    let h = new_header(target, version, age, n);
    assert forall|k: int| 0 <= k < size implies #[trigger] written[target + k] == block[k] by {}
    let tail = written.subrange(target + 0x20, target + 0x200);
    assert forall|k: int| 0 <= k < tail.len() implies tail[k] == 0xff by {
        assert(tail[k] == written[target + (0x20 + k)]);
        assert(block[0x20 + k] == 0xff);
    }
    let short = written.subrange(target + 0x20, target + 0x40);
    assert forall|k: int| 0 <= k < short.len() implies short[k] == 0xff by {
        assert(short[k] == written[target + (0x20 + k)]);
        assert(block[0x20 + k] == 0xff);
    }
    assert(bytes::all_equal(short, 0xff));
    assert(crate::oeminfo::header::uniform(short) == Some(0xffu8)) by {
        assert(short[0] == 0xff);
    }
    assert(crate::oeminfo::header::padding_at(written, target) == Some(0xffu8)) by {
        assert(bytes::all_equal(tail, 0xff));
    }
    assert(OEMINFO_MAGIC@.len() == 8);
    assert(bytes::stands_at(written, target, OEMINFO_MAGIC@)) by {
        assert forall|k: int| 0 <= k < 8 implies written.subrange(target, target + 8)[k]
            == OEMINFO_MAGIC@[k] by {
            assert(written[target + k] == block[k]);
        }
        assert(written.subrange(target, target + 8) =~= OEMINFO_MAGIC@);
    }
    lemma_same_le32(written, target + 8, block, 8);
    lemma_same_le32(written, target + 12, block, 12);
    lemma_same_le32(written, target + 16, block, 16);
    lemma_same_le32(written, target + 20, block, 20);
    lemma_same_le32(written, target + 24, block, 24);
}

/// `law_written_block_reads_back` for any block with the right fields.
#[verifier::spinoff_prover]
proof fn lemma_block_read(
    raw: Seq<u8>,
    target: int,
    block: Seq<u8>,
    version: int,
    age: int,
    image_version: Seq<u8>,
    data: Seq<u8>,
)
    requires
        has_block_fields(block, version, age, image_version, data),
        0 < version <= crate::oeminfo::header::MAX_PLAUSIBLE_VERSION,
        0 <= age <= OEMINFO_MAX_AGE,
        image_version.len() == 12,
        data.len() >= 2,
        26 + data.len() <= 0xffff_fff0,
        0x200 + 26 + data.len() <= block.len(),
        0 <= target,
        target + block.len() <= raw.len() <= usize::MAX,
    ensures
        ({
            let written = bytes::patched(raw, target, block);
            let h = new_header(target, version, age, 26 + data.len() as int);
            let payload = written.subrange(h.payload_start(), h.end());
            &&& crate::oeminfo::header::header_at(written, target) == Some(h)
            &&& payload.skip(26) == data
            &&& payload.subrange(12, 24) == image_version
            &&& bytes::le32(payload, 0) == 26
            &&& bytes::le32(payload, 4) - bytes::le32(payload, 8) == payload.len()
            &&& payload.subrange(24, 28) == seq![0u8, 0, data[0], data[1]]
        }),
{
    let n: int = 26 + data.len() as int;
    let size = block.len() as int;
    let written = bytes::patched(raw, target, block);
    let h = new_header(target, version, age, n);
    lemma_block_header(raw, target, block, version, age, image_version, data);
    assert forall|k: int| 0 <= k < size implies #[trigger] written[target + k] == block[k] by {}
    let payload = written.subrange(h.payload_start(), h.end());
    assert forall|k: int| 0 <= k < n implies #[trigger] payload[k] == block[0x200 + k] by {
        assert(payload[k] == written[target + (0x200 + k)]);
    }
    lemma_same_le32(payload, 0, block, 0x200);
    lemma_same_le32(payload, 4, block, 0x204);
    lemma_same_le32(payload, 8, block, 0x208);
    assert forall|k: int| 0 <= k < data.len() implies payload.skip(26)[k] == data[k] by {
        assert(payload[26 + k] == block[0x200 + (26 + k)]);
        assert(block[0x21a + k] == data[k]);
    }
    assert(payload.skip(26) =~= data);
    assert forall|k: int| 0 <= k < 12 implies payload.subrange(12, 24)[k] == image_version[k] by {
        assert(payload[12 + k] == block[0x200 + (12 + k)]);
        assert(block[0x20c + k] == image_version[k]);
    }
    assert(payload.subrange(12, 24) =~= image_version);
    assert(block[0x21aint + 0] == data[0]);
    assert(block[0x21aint + 1] == data[1]);
    assert(payload.subrange(24, 28) =~= seq![0u8, 0, data[0], data[1]]);
}

/// Four equal bytes are equal numbers.
proof fn lemma_same_le32(a: Seq<u8>, i: int, b: Seq<u8>, j: int)
    requires
        a[i] == b[j],
        a[i + 1] == b[j + 1],
        a[i + 2] == b[j + 2],
        a[i + 3] == b[j + 3],
    ensures
        bytes::le32(a, i) == bytes::le32(b, j),
{
}

/// What stands where in a new block.
pub(crate) open spec fn has_block_fields(
    b: Seq<u8>,
    version: int,
    age: int,
    image_version: Seq<u8>,
    data: Seq<u8>,
) -> bool {
    let n = 26 + data.len() as int;
    &&& forall|k: int| 0 <= k < 8 ==> #[trigger] b[k] == OEMINFO_MAGIC@[k]
    &&& bytes::le32(b, 8) == version
    &&& bytes::le32(b, 12) == OEMINFO_BOOT_LOGO_ID
    &&& bytes::le32(b, 16) == (n + 511) / 512
    &&& bytes::le32(b, 20) == n
    &&& bytes::le32(b, 24) == age
    &&& forall|k: int| 28 <= k < 0x200 ==> #[trigger] b[k] == 0xff
    &&& bytes::le32(b, 0x200) == 26
    &&& bytes::le32(b, 0x204) == image_end(n)
    &&& bytes::le32(b, 0x208) == image_end(n) - n
    &&& forall|k: int| 0 <= k < 12 ==> #[trigger] b[0x20c + k] == image_version[k]
    &&& b[0x218] == 0
    &&& b[0x219] == 0
    &&& forall|k: int| 0 <= k < data.len() ==> #[trigger] b[0x21a + k] == data[k]
}

#[verifier::spinoff_prover]
pub(crate) proof fn lemma_block_fields(
    version: int,
    age: int,
    image_version: Seq<u8>,
    data: Seq<u8>,
    size: int,
)
    requires
        0 < version <= crate::oeminfo::header::MAX_PLAUSIBLE_VERSION,
        0 <= age <= OEMINFO_MAX_AGE,
        image_version.len() == 12,
        26 + data.len() <= 0xffff_fff0,
        0x200 + 26 + data.len() <= size,
    ensures
        has_block_fields(
            block_bytes(version, age, image_version, data, size),
            version,
            age,
            image_version,
            data,
        ),
{
    let n = 26 + data.len() as int;
    let b = block_bytes(version, age, image_version, data, size);
    assert(OEMINFO_MAGIC@.len() == 8);
    bytes::lemma_bytes32(version);
    bytes::lemma_bytes32(OEMINFO_BOOT_LOGO_ID as int);
    bytes::lemma_bytes32((n + 511) / 512);
    bytes::lemma_bytes32(n);
    bytes::lemma_bytes32(age);
    bytes::lemma_bytes32(26);
    bytes::lemma_bytes32(image_end(n));
    bytes::lemma_bytes32(image_end(n) - n);
    lemma_same_le32(b, 8, bytes::bytes32(version), 0);
    lemma_same_le32(b, 12, bytes::bytes32(OEMINFO_BOOT_LOGO_ID as int), 0);
    lemma_same_le32(b, 16, bytes::bytes32((n + 511) / 512), 0);
    lemma_same_le32(b, 20, bytes::bytes32(n), 0);
    lemma_same_le32(b, 24, bytes::bytes32(age), 0);
    lemma_same_le32(b, 0x200, bytes::bytes32(26), 0);
    lemma_same_le32(b, 0x204, bytes::bytes32(image_end(n)), 0);
    lemma_same_le32(b, 0x208, bytes::bytes32(image_end(n) - n), 0);
}

// ---------------------------------------------------------------------------
// What a plan writes
// ---------------------------------------------------------------------------

/// A new block is that of a boot logo, number 4501: its header states its version,
/// how many units of 512 bytes its payload takes, its length and its age; behind it
/// stand the header of the image, with 26 as where it starts, its end in whole 16
/// bytes and how far that lies behind, the version, two zeros, and the data. All else
/// is 0xff.
#[verifier::rlimit(60)]
#[verifier::spinoff_prover]
pub proof fn law_new_blocks_state_their_logo(
    version: int,
    age: int,
    image_version: Seq<u8>,
    data: Seq<u8>,
    size: int,
)
    requires
        0 <= version <= u32::MAX,
        0 <= age <= u32::MAX,
        image_version.len() == 12,
        538 + data.len() <= size,
        26 + data.len() <= 0xffff_fff0,
    ensures
        ({
            let b = block_bytes(version, age, image_version, data, size);
            let n = 26 + data.len();
            &&& b.len() == size
            &&& crate::oeminfo::header::is_marked(b, 0)
            &&& bytes::le32(b, 8) == version
            &&& bytes::le32(b, 12) == 4501
            &&& bytes::le32(b, 16) == (n + 511) / 512
            &&& bytes::le32(b, 20) == n
            &&& bytes::le32(b, 24) == age
            &&& bytes::le32(b, 512) == 26
            &&& n <= bytes::le32(b, 516) < n + 16 && bytes::le32(b, 516) % 16 == 0
            &&& bytes::le32(b, 520) == bytes::le32(b, 516) - n
            &&& b[536] == 0 && b[537] == 0
        }),
        ({
            let b = block_bytes(version, age, image_version, data, size);
            let n = 26 + data.len();
            &&& forall|i: int| 28 <= i < 512 ==> #[trigger] b[i] == 0xff
            &&& forall|i: int| 512 + n <= i < size ==> #[trigger] b[i] == 0xff
            &&& b.subrange(524, 536) == image_version
            &&& b.subrange(538, 538int + data.len()) == data
        }),
{
    let b = block_bytes(version, age, image_version, data, size);
    let n: int = 26 + data.len() as int;
    let units = (n + 511) / 512;
    let end = image_end(n);
    assert(OEMINFO_MAGIC@.len() == 8);
    bytes::lemma_bytes32(version);
    bytes::lemma_bytes32(4501);
    bytes::lemma_bytes32(units);
    bytes::lemma_bytes32(n);
    bytes::lemma_bytes32(age);
    bytes::lemma_bytes32(26);
    bytes::lemma_bytes32(end);
    bytes::lemma_bytes32(end - n);
    let magic = OEMINFO_MAGIC@;
    assert(magic[0] == 0x4f && magic[1] == 0x45 && magic[2] == 0x4d && magic[3] == 0x5f);
    assert(magic[4] == 0x49 && magic[5] == 0x4e && magic[6] == 0x46 && magic[7] == 0x4f);
    assert forall|i: int| 0 <= i < 8 implies #[trigger] b[i] == magic[i] by {}
    assert(b[0] == 0x4f && b[7] == 0x4f);
    lemma_number_in(b, 8, version);
    lemma_number_in(b, 12, 4501);
    lemma_number_in(b, 16, units);
    lemma_number_in(b, 20, n);
    lemma_number_in(b, 24, age);
    lemma_number_in(b, 512, 26);
    lemma_number_in(b, 516, end);
    lemma_number_in(b, 520, end - n);
    assert(b.subrange(524, 536) =~= image_version);
    assert(b.subrange(538, 538int + data.len()) =~= data);
}

proof fn lemma_number_in(b: Seq<u8>, at: int, v: int)
    requires
        0 <= v <= u32::MAX,
        b[at] == bytes::bytes32(v)[0],
        b[at + 1] == bytes::bytes32(v)[1],
        b[at + 2] == bytes::bytes32(v)[2],
        b[at + 3] == bytes::bytes32(v)[3],
    ensures
        bytes::le32(b, at) == v,
{
    bytes::lemma_bytes32(v);
}

/// The logos of an image are its blocks with number 4501, in their order.
pub proof fn law_logos_are_told_by_their_number(blocks: Seq<ParsedBlock>, i: int)
    ensures
        logos(blocks).contains(i) <==> 0 <= i < blocks.len() && blocks[i].header.id == 4501,
    decreases blocks.len(),
{
    if blocks.len() > 0 {
        let less = blocks.drop_last();
        let before = logos(less);
        let all = logos(blocks);
        law_logos_are_told_by_their_number(less, i);
        if before.contains(i) {
            let k = choose|k: int| 0 <= k < before.len() && before[k] == i;
            assert(all[k] == i);
        }
        if all.contains(i) {
            let k = choose|k: int| 0 <= k < all.len() && all[k] == i;
            if k < before.len() {
                assert(before[k] == i);
            }
        }
        if i == blocks.len() - 1 && blocks[i].header.id == 4501 {
            assert(all[all.len() - 1] == i);
        }
    }
}

/// The logo that is replaced is the only active one, and the one whose place is
/// taken is the other one, where there is one; both are stored as images behind long
/// headers.
pub proof fn law_the_active_logo_is_replaced(blocks: Seq<ParsedBlock>)
    ensures
        chosen(blocks) matches Ok((source, spare)) ==> {
            &&& logos(blocks).contains(source) && blocks[source].active
            &&& blocks[source].header.header_size == 512
            &&& blocks[source].payload.kind == OemInfoPayloadKind::ImageGzip
                || blocks[source].payload.kind == OemInfoPayloadKind::ImageRaw
            &&& logos(blocks).len() == 1 <==> spare is None
            &&& spare matches Some(other) ==> other != source && logos(blocks).contains(other)
                && !blocks[other].active && logos(blocks).len() == 2
        },
        logos(blocks).len() == 0 ==> chosen(blocks) == Err::<(int, Option<int>), LogoError>(
            LogoError::NoLogo,
        ),
        logos(blocks).len() > 2 ==> chosen(blocks) == Err::<(int, Option<int>), LogoError>(
            LogoError::TooManyLogos,
        ),
{
    let list = logos(blocks);
    lemma_logos(blocks);
    if list.len() > 0 {
        assert(list.contains(list[0]));
    }
    if list.len() > 1 {
        assert(list.contains(list[1]));
    }
}

/// The highest age is that of one of the logos, or zero, and none is older.
pub proof fn law_highest_ages_are_those_of_logos(blocks: Seq<ParsedBlock>, i: int)
    ensures
        0 <= i < blocks.len() && blocks[i].header.id == 4501 ==> blocks[i].header.age
            <= highest_age(blocks),
        highest_age(blocks) == 0 || exists|k: int|
            0 <= k < blocks.len() && (#[trigger] blocks[k]).header.id == 4501
                && blocks[k].header.age == highest_age(blocks),
    decreases blocks.len(),
{
    if blocks.len() > 0 {
        let less = blocks.drop_last();
        law_highest_ages_are_those_of_logos(less, i);
        let last = blocks.len() - 1;
        if highest_age(blocks) == highest_age(less) && highest_age(less) != 0 {
            let k = choose|k: int|
                0 <= k < less.len() && (#[trigger] less[k]).header.id == 4501 && less[k].header.age
                    == highest_age(less);
            assert(blocks[k] == less[k]);
        } else if highest_age(blocks) != 0 {
            assert(blocks[last].header.id == 4501);
        }
        if 0 <= i < last {
            assert(less[i] == blocks[i]);
        }
    }
}

/// A new logo goes to the place of the inactive one, or else to where the active one
/// has its counterpart in the other bank.
pub proof fn law_new_logos_go_to_the_other_bank(
    source: BlockHeader,
    spare: BlockHeader,
    region_size: int,
)
    ensures
        slot(source, Some(spare), region_size) == Ok::<int, LogoError>(spare.offset as int),
        slot(source, None, region_size) matches Ok(target) ==> {
            &&& target % 4096 == 0
            &&& source.offset < region_size ==> target == source.offset + region_size
            &&& source.offset >= region_size ==> target + region_size == source.offset
        },
        slot(source, None, region_size) is Err ==> (if source.offset < region_size {
            source.offset + region_size
        } else {
            source.offset - region_size
        }) % 4096 != 0,
{
}

/// What is written ends at a whole 4096 bytes, and covers the new block and the one
/// whose place it takes.
pub proof fn law_writes_cover_both_blocks(
    blocks: Seq<ParsedBlock>,
    target: int,
    payload_len: int,
    i: int,
)
    requires
        0 <= target,
        0 <= payload_len,
        0 <= i < blocks.len() && blocks[i].header.offset == target ==> forall|k: int|
            0 <= k < i ==> (#[trigger] blocks[k]).header.offset != target,
    ensures
        ({
            let end = write_end(blocks, target, payload_len);
            &&& end % 4096 == 0
            &&& end >= target + 512 + payload_len
            &&& 0 <= i < blocks.len() && blocks[i].header.offset == target ==> end >= target
                + blocks[i].header.header_size + blocks[i].header.length
        }),
    decreases blocks.len(),
{
    if blocks.len() > 0 && blocks[0].header.offset != target {
        let rest = blocks.skip(1);
        if 0 < i < blocks.len() {
            assert(rest[i - 1] == blocks[i]);
            assert forall|k: int| 0 <= k < i - 1 && blocks[i].header.offset == target implies (
            #[trigger] rest[k]).header.offset != target by {
                assert(rest[k] == blocks[k + 1]);
            }
        }
        law_writes_cover_both_blocks(rest, target, payload_len, i - 1);
    }
}

/// A plan replaces a logo by one of its own width and height; the new block is one
/// generation younger than all logos, has the version of the one that it replaces,
/// and its picture as data, compressed where the old one is.
pub proof fn law_plans_renew_the_logo(
    raw: Seq<u8>,
    blocks: Seq<ParsedBlock>,
    region_size: int,
    picture: Seq<u8>,
    width: u32,
    height: u32,
)
    requires
        planned(raw, blocks, region_size, picture, width, height) is Ok,
        0 <= region_size,
        forall|k: int|
            0 <= k < blocks.len() ==> (#[trigger] blocks[k]).header.fits(raw.len() as int) && (
            blocks[k].payload.kind.is_image() ==> blocks[k].header.length >= 28),
    ensures
        ({
            let plan = planned(raw, blocks, region_size, picture, width, height)->Ok_0;
            let (source, spare) = chosen(blocks)->Ok_0;
            let old = blocks[source];
            let data = if old.payload.kind == OemInfoPayloadKind::ImageGzip {
                codec::gzipped(picture)->0
            } else {
                picture
            };
            &&& chosen(blocks) is Ok
            &&& logo_size(raw, old) == Ok::<(u32, u32), LogoError>((width, height))
            &&& renews(raw, blocks, region_size, source, spare, data, plan)
        }),
{
    let (source, spare) = chosen(blocks)->Ok_0;
    let data = stored_data(blocks[source].payload.kind, picture)->0;
    law_the_active_logo_is_replaced(blocks);
    lemma_logos(blocks);
    let k = choose|k: int| 0 <= k < logos(blocks).len() && logos(blocks)[k] == source;
    assert(0 <= source < blocks.len());
    assert(blocks[source].header.fits(raw.len() as int));
    lemma_renews(raw, blocks, region_size, source, spare, data);
}

/// True when a plan writes a new generation of a logo with the data, in place of
/// the spare one or in the other bank.
pub open spec fn renews(
    raw: Seq<u8>,
    blocks: Seq<ParsedBlock>,
    region_size: int,
    source: int,
    spare: Option<int>,
    data: Seq<u8>,
    plan: PlanModel,
) -> bool {
    let old = blocks[source].header;
    let start = old.offset + old.header_size;
    let other = if spare is Some {
        Some(blocks[spare->0].header)
    } else {
        None
    };
    &&& plan.age == highest_age(blocks) + 1 && plan.age <= 999_999_999
    &&& plan.payload_len == 26 + data.len()
    &&& plan.block == block_bytes(
        old.version as int,
        plan.age,
        raw.subrange(start + 12, start + 24),
        data,
        plan.block.len() as int,
    )
    &&& slot(old, other, region_size) == Ok::<int, LogoError>(plan.target)
    &&& plan.block.len() >= 538 + data.len()
    &&& plan.target + plan.block.len() <= raw.len()
}

proof fn lemma_renews(
    raw: Seq<u8>,
    blocks: Seq<ParsedBlock>,
    region_size: int,
    source: int,
    spare: Option<int>,
    data: Seq<u8>,
)
    requires
        placed(raw, blocks, region_size, source, spare, data) is Ok,
        0 <= region_size,
        blocks[source].header.fits(raw.len() as int),
        blocks[source].header.length >= 28,
    ensures
        renews(
            raw,
            blocks,
            region_size,
            source,
            spare,
            data,
            placed(raw, blocks, region_size, source, spare, data)->Ok_0,
        ),
{
    let plan = placed(raw, blocks, region_size, source, spare, data)->Ok_0;
    let h = blocks[source].header;
    let n: int = 26 + data.len() as int;
    let end = write_end(blocks, plan.target, n);
    assert(plan.target >= 0);
    lemma_write_end(blocks, plan.target, n);
    let version = raw.subrange(h.payload_start() + 12, h.payload_start() + 24);
    assert(version.len() == 12);
    lemma_block_length(h.version as int, plan.age, version, data, end - plan.target);
}

/// A written plan is confirmed where the first active logo is the block that it
/// wrote, of its age, with the picture's width and height.
pub proof fn law_written_plans_are_confirmed(
    raw: Seq<u8>,
    blocks: Seq<ParsedBlock>,
    plan: PlanModel,
    width: u32,
    height: u32,
)
    ensures
        commit_error(raw, blocks, plan, width, height) is None <==> (active_logo(blocks, 0) matches Some(
            i,
        ) && blocks[i].header.offset == plan.target && blocks[i].header.age == plan.age && logo_size(
            raw,
            blocks[i],
        ) == Ok::<(u32, u32), LogoError>((width, height))),
        active_logo(blocks, 0) is None ==> commit_error(raw, blocks, plan, width, height) == Some(
            LogoError::NotActive,
        ),
{
}

/// The first active logo is active, has number 4501, and none before it is both.
pub proof fn law_first_active_logos(blocks: Seq<ParsedBlock>, from: int)
    requires
        from >= 0,
    ensures
        match active_logo(blocks, from) {
            Some(i) => {
                &&& from <= i < blocks.len() && blocks[i].header.id == 4501 && blocks[i].active
                &&& forall|k: int|
                    from <= k < i ==> !((#[trigger] blocks[k]).header.id == 4501 && blocks[k].active)
            },
            None => forall|k: int|
                from <= k < blocks.len() ==> !((#[trigger] blocks[k]).header.id == 4501
                    && blocks[k].active),
        },
    decreases blocks.len() - from,
{
    if from < blocks.len() && !(blocks[from].header.id == 4501 && blocks[from].active) {
        law_first_active_logos(blocks, from + 1);
    }
}

/// The picture of a block is its data as it is, or what the data decompresses to,
/// up to 256 MiB.
pub proof fn law_pictures_are_decompressed(data: Seq<u8>)
    ensures
        stored_picture(OemInfoPayloadKind::ImageRaw, data) == Ok::<Seq<u8>, LogoError>(data),
        stored_picture(OemInfoPayloadKind::ImageGzip, data) matches Ok(picture) ==> Some(picture)
            == codec::gunzipped(data, 268_435_457) && picture.len() <= 268_435_456,
        stored_picture(OemInfoPayloadKind::ImageGzip, data) is Err ==> match codec::gunzipped(
            data,
            268_435_457,
        ) {
            None => true,
            Some(picture) => picture.len() > 268_435_456,
        },
{
}

} // verus!
