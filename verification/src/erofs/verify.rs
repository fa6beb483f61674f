//! The verification of images: what holds of a sound image, and what it
//! contains.

use vstd::prelude::*;

use crate::bytes;
use crate::erofs::attributes;
use crate::erofs::build_options;
use crate::erofs::build_options::BuildOptions;
use crate::erofs::compression;
use crate::erofs::image;
use crate::erofs::image::{BuildReport, Steps};
use crate::erofs::inode;
use crate::erofs::layout::{EROFS_SUPER_OFFSET, S_IFDIR, S_IFLNK, S_IFREG};
use crate::erofs::metadata::{EntryMetadata, MetadataManifest, MetadataModel};
use crate::erofs::tree::Entry;
use crate::formats::der;
use crate::text;

verus! {

/// How many bytes of a superblock there are at least.
pub const MIN_SUPERBLOCK: u64 = 128;

/// The longest target of a symbolic link.
pub const MAX_LINK_TARGET: u64 = 65535;

/// What a superblock says of its image.
#[derive(Debug)]
pub struct ImageHeader {
    pub blocks: u64,
    pub block_size: u32,
    pub superblock_size: u32,
    /// The checksum, where one is stored.
    pub checksum: Option<u32>,
    /// The inode that holds the ends of files, or zero.
    pub packed_nid: u64,
    pub uuid: [u8; 16],
    pub label: Vec<u8>,
    pub epoch: i64,
    pub build_time: u32,
}

/// A run of bytes of a file.
#[derive(Debug, Clone, Copy, PartialEq, Eq, Structural)]
pub struct Extent {
    pub logical: u64,
    pub length: u64,
    pub is_mapped: bool,
    pub is_fragment: bool,
    pub physical: u64,
    pub physical_length: u64,
    pub device: u16,
}

/// A file of an image. `offset` is where its inode stands. The extents are those
/// of its data, in the order of the data.
#[derive(Debug)]
pub struct Node {
    pub path: String,
    pub nid: u64,
    pub offset: u64,
    pub inode_size: u32,
    pub xattr_size: u32,
    pub size: u64,
    pub fragment_offset: u64,
    pub metadata: EntryMetadata,
    pub extents: Vec<Extent>,
    pub data: Vec<u8>,
}

/// What is wrong with an image.
#[derive(Debug, Clone, Copy, PartialEq, Eq, Structural)]
pub enum VerifyError {
    TruncatedSuperblock,
    SizeOverflow,
    /// The filesystem is larger than the image, or too small for its superblock.
    InvalidSize,
    ChecksumArea,
    Checksum,
    InodeOffset,
    InodeBeyondEnd,
    /// The data of a file is not covered.
    MissingExtent,
    ExtentOverflow,
    EmptyExtent,
    PackedInode,
    FragmentBeyondEnd,
    ExternalDevice,
    ExtentBeyondEnd,
    LinkTooLong,
    LinkNotText,
    LabelNotText,
    BuildTime,
}

/// What an image contains: the metadata of its files, and the SHA-256 digests of
/// the data of regular files and symbolic links by path.
#[derive(Debug)]
pub struct ImageInventory {
    pub metadata: MetadataManifest,
    pub sha256: Vec<(String, Vec<u8>)>,
}

// ---------------------------------------------------------------------------
// The superblock
// ---------------------------------------------------------------------------

/// Where the area ends that the checksum covers: with the block in which the
/// superblock starts.
pub open spec fn checksum_end(block_size: int) -> int {
    (1025 + block_size - 1) / block_size * block_size
}

/// The area that the checksum covers, with a checksum of zero.
pub open spec fn checksum_area(image: Seq<u8>, block_size: int) -> Seq<u8> {
    bytes::patched(image.subrange(1024, checksum_end(block_size)), 4, bytes::filled(0, 4))
}

/// How large the filesystem of an image is.
pub open spec fn filesystem_size(header: ImageHeader) -> int {
    header.blocks * header.block_size
}

/// What is wrong with the superblock of an image, if anything is.
pub open spec fn superblock_error(image: Seq<u8>, header: ImageHeader) -> Option<VerifyError> {
    let size = filesystem_size(header);
    let end = checksum_end(header.block_size as int);
    if image.len() < EROFS_SUPER_OFFSET + MIN_SUPERBLOCK {
        Some(VerifyError::TruncatedSuperblock)
    } else if size > u64::MAX {
        Some(VerifyError::SizeOverflow)
    } else if size > image.len() || size < EROFS_SUPER_OFFSET + header.superblock_size {
        Some(VerifyError::InvalidSize)
    } else if header.checksum is None {
        None
    } else if end > image.len() || end < 1032 {
        Some(VerifyError::ChecksumArea)
    } else if 0xffff_ffff - inode::crc32c_of(checksum_area(image, header.block_size as int))
        != header.checksum->0 {
        Some(VerifyError::Checksum)
    } else {
        None
    }
}

fn stored_checksum_holds(image: &[u8], block_size: u32, checksum: u32) -> (checked: Result<
    (),
    VerifyError,
>)
    requires
        block_size > 0,
        image@.len() >= 1152,
    ensures
        ({
            let end = checksum_end(block_size as int);
            match checked {
                Ok(()) => 1032 <= end <= image@.len() && 0xffff_ffff - inode::crc32c_of(
                    checksum_area(image@, block_size as int),
                ) == checksum,
                Err(error) => if end > image@.len() || end < 1032 {
                    error == VerifyError::ChecksumArea
                } else {
                    error == VerifyError::Checksum && 0xffff_ffff - inode::crc32c_of(
                        checksum_area(image@, block_size as int),
                    ) != checksum
                },
            }
        }),
{
    let block: u64 = block_size as u64;
    let count: u64 = (1025 + block - 1) / block;
    assert(count <= 1025) by (nonlinear_arith)
        requires
            block >= 1,
            count == (1025 + block - 1) / block as int,
    ;
    assert(count * block <= 1025 + block - 1) by (nonlinear_arith)
        requires
            block >= 1,
            count == (1025 + block - 1) / block as int,
    ;
    assert(count * block >= 0) by (nonlinear_arith);
    let end: u64 = count * block;
    if end > image.len() as u64 || end < 1032 {
        return Err(VerifyError::ChecksumArea);
    }
    let mut area: Vec<u8> = bytes::copy_range(image, 1024, end as usize);
    let mut zeros: Vec<u8> = Vec::new();
    bytes::push_filled(&mut zeros, 0, 4);
    assert(zeros@ =~= bytes::filled(0, 4));
    bytes::overwrite(&mut area, 4, zeros.as_slice());
    if 0xffff_ffff - inode::crc32c(area.as_slice()) != checksum {
        return Err(VerifyError::Checksum);
    }
    Ok(())
}

/// Checks a superblock, and gives the size of the filesystem.
pub fn check_superblock(image: &[u8], header: &ImageHeader) -> (size: Result<u64, VerifyError>)
    ensures
        match size {
            Ok(found) => superblock_error(image@, *header) is None && found == filesystem_size(
                *header,
            ),
            Err(error) => superblock_error(image@, *header) == Some(error),
        },
{
    if (image.len() as u64) < EROFS_SUPER_OFFSET + MIN_SUPERBLOCK {
        return Err(VerifyError::TruncatedSuperblock);
    }
    let size: u64 = match header.blocks.checked_mul(header.block_size as u64) {
        Some(size) => size,
        None => {
            return Err(VerifyError::SizeOverflow);
        },
    };
    if size > image.len() as u64 || size < EROFS_SUPER_OFFSET + header.superblock_size as u64 {
        return Err(VerifyError::InvalidSize);
    }
    assert(header.block_size > 0) by (nonlinear_arith)
        requires
            size == header.blocks * header.block_size,
            size >= 1024,
            header.block_size >= 0,
    ;
    if let Some(checksum) = header.checksum {
        if let Err(error) = stored_checksum_holds(image, header.block_size, checksum) {
            return Err(error);
        }
    }
    Ok(size)
}

// ---------------------------------------------------------------------------
// Extents
// ---------------------------------------------------------------------------

pub open spec fn has_data(mode: u32) -> bool {
    mode & 0xf000 == S_IFREG || mode & 0xf000 == S_IFLNK || mode & 0xf000 == S_IFDIR
}

/// How much of an extent belongs to a file.
pub open spec fn extent_share(node: Node, extent: Extent) -> int {
    let rest = node.size - extent.logical;
    if extent.length < rest {
        extent.length as int
    } else {
        rest
    }
}

/// What is wrong with the extent at an offset of a file, if anything is.
/// `packed` is the size of the inode that holds the ends of files.
pub open spec fn extent_error(
    node: Node,
    offset: int,
    extent: Extent,
    limit: int,
    packed_nid: u64,
    packed: u64,
) -> Option<VerifyError> {
    let end = extent.logical + extent.length;
    if end > u64::MAX {
        Some(VerifyError::ExtentOverflow)
    } else if extent.logical > offset || end <= offset {
        Some(VerifyError::EmptyExtent)
    } else if extent.is_fragment && (packed_nid == 0 || packed_nid == node.nid) {
        Some(VerifyError::PackedInode)
    } else if extent.is_fragment && node.fragment_offset + extent_share(node, extent) > packed {
        Some(VerifyError::FragmentBeyondEnd)
    } else if extent.is_mapped && !extent.is_fragment && extent.device != 0 {
        Some(VerifyError::ExternalDevice)
    } else if extent.is_mapped && !extent.is_fragment && extent.physical + extent.physical_length
        > limit {
        Some(VerifyError::ExtentBeyondEnd)
    } else {
        None
    }
}

/// What is wrong with the extents of a file from an offset on.
pub open spec fn extents_error(
    node: Node,
    at: int,
    offset: int,
    limit: int,
    packed_nid: u64,
    packed: u64,
) -> Option<VerifyError>
    decreases node.extents@.len() - at,
{
    if offset >= node.size {
        None
    } else if at < 0 || at >= node.extents@.len() {
        Some(VerifyError::MissingExtent)
    } else {
        let extent = node.extents@[at];
        match extent_error(node, offset, extent, limit, packed_nid, packed) {
            Some(error) => Some(error),
            None => extents_error(
                node,
                at + 1,
                extent.logical + extent.length,
                limit,
                packed_nid,
                packed,
            ),
        }
    }
}

/// What is wrong with where a file stands in the image, if anything is.
pub open spec fn node_error(node: Node, limit: int, packed_nid: u64, packed: u64) -> Option<
    VerifyError,
> {
    let end = node.offset + node.inode_size + node.xattr_size;
    if end > u64::MAX {
        Some(VerifyError::InodeOffset)
    } else if end > limit {
        Some(VerifyError::InodeBeyondEnd)
    } else if !has_data(node.metadata.mode) {
        None
    } else {
        extents_error(node, 0, 0, limit, packed_nid, packed)
    }
}

/// What is wrong with the files from a place on, the first thing that is.
pub open spec fn nodes_error(
    nodes: Seq<Node>,
    from: int,
    limit: int,
    packed_nid: u64,
    packed: u64,
) -> Option<VerifyError>
    decreases nodes.len() - from,
{
    if from < 0 || from >= nodes.len() {
        None
    } else {
        match node_error(nodes[from], limit, packed_nid, packed) {
            Some(error) => Some(error),
            None => nodes_error(nodes, from + 1, limit, packed_nid, packed),
        }
    }
}

fn check_extent(
    node: &Node,
    offset: u64,
    extent: Extent,
    limit: u64,
    packed_nid: u64,
    packed: u64,
) -> (checked: Result<u64, VerifyError>)
    requires
        offset < node.size,
    ensures
        match checked {
            Ok(end) => {
                &&& extent_error(*node, offset as int, extent, limit as int, packed_nid, packed)
                    is None
                &&& end == extent.logical + extent.length
            },
            Err(error) => extent_error(
                *node,
                offset as int,
                extent,
                limit as int,
                packed_nid,
                packed,
            ) == Some(error),
        },
{
    let end: u64 = match extent.logical.checked_add(extent.length) {
        Some(end) => end,
        None => {
            return Err(VerifyError::ExtentOverflow);
        },
    };
    if extent.logical > offset || end <= offset {
        return Err(VerifyError::EmptyExtent);
    }
    if extent.is_fragment {
        if packed_nid == 0 || packed_nid == node.nid {
            return Err(VerifyError::PackedInode);
        }
        let rest: u64 = node.size - extent.logical;
        let length: u64 = if extent.length < rest {
            extent.length
        } else {
            rest
        };
        if packed < length || packed - length < node.fragment_offset {
            return Err(VerifyError::FragmentBeyondEnd);
        }
    } else if extent.is_mapped {
        if extent.device != 0 {
            return Err(VerifyError::ExternalDevice);
        }
        if limit < extent.physical_length || limit - extent.physical_length < extent.physical {
            return Err(VerifyError::ExtentBeyondEnd);
        }
    }
    Ok(end)
}

/// Checks where a file stands in a filesystem of `limit` bytes.
pub fn validate_extents(node: &Node, limit: u64, packed_nid: u64, packed: u64) -> (checked: Result<
    (),
    VerifyError,
>)
    ensures
        match checked {
            Ok(()) => node_error(*node, limit as int, packed_nid, packed) is None,
            Err(error) => node_error(*node, limit as int, packed_nid, packed) == Some(error),
        },
{
    let sizes: u64 = node.inode_size as u64 + node.xattr_size as u64;
    let end: u64 = match node.offset.checked_add(sizes) {
        Some(end) => end,
        None => {
            return Err(VerifyError::InodeOffset);
        },
    };
    if end > limit {
        return Err(VerifyError::InodeBeyondEnd);
    }
    let kind: u32 = node.metadata.mode & 0xf000;
    if kind != S_IFREG && kind != S_IFLNK && kind != S_IFDIR {
        return Ok(());
    }
    let mut at: usize = 0;
    let mut offset: u64 = 0;
    while offset < node.size
        invariant
            at <= node.extents@.len(),
            extents_error(*node, 0, 0, limit as int, packed_nid, packed) == extents_error(
                *node,
                at as int,
                offset as int,
                limit as int,
                packed_nid,
                packed,
            ),
            node_error(*node, limit as int, packed_nid, packed) == extents_error(
                *node,
                0,
                0,
                limit as int,
                packed_nid,
                packed,
            ),
        decreases node.extents@.len() - at,
    {
        if at >= node.extents.len() {
            return Err(VerifyError::MissingExtent);
        }
        match check_extent(node, offset, node.extents[at], limit, packed_nid, packed) {
            Ok(end) => {
                offset = end;
            },
            Err(error) => {
                return Err(error);
            },
        }
        at += 1;
    }
    Ok(())
}

// ---------------------------------------------------------------------------
// Metadata
// ---------------------------------------------------------------------------

pub open spec fn is_link(mode: u32) -> bool {
    mode & 0xf000 == S_IFLNK
}

/// What is recorded of a file.
pub open spec fn node_entry(node: Node) -> Result<MetadataModel, VerifyError> {
    if !is_link(node.metadata.mode) {
        Ok(
            MetadataModel { original_nid: Some(node.nid), symlink: None, ..node.metadata@ },
        )
    } else if node.size > MAX_LINK_TARGET {
        Err(VerifyError::LinkTooLong)
    } else if !vstd::utf8::valid_utf8(node.data@) {
        Err(VerifyError::LinkNotText)
    } else {
        Ok(
            MetadataModel {
                original_nid: Some(node.nid),
                symlink: Some(vstd::utf8::decode_utf8(node.data@)),
                ..node.metadata@
            },
        )
    }
}

/// Why the files from a place on cannot be recorded, if they cannot.
pub open spec fn entry_error(nodes: Seq<Node>, from: int) -> Option<VerifyError>
    decreases nodes.len() - from,
{
    if from < 0 || from >= nodes.len() {
        None
    } else {
        match node_entry(nodes[from]) {
            Err(error) => Some(error),
            Ok(_) => entry_error(nodes, from + 1),
        }
    }
}

/// The label up to its first zero byte.
pub open spec fn label_end(label: Seq<u8>, from: int) -> int
    decreases label.len() - from,
{
    if from < 0 || from >= label.len() || label[from] == 0 {
        from
    } else {
        label_end(label, from + 1)
    }
}

pub open spec fn label_bytes(label: Seq<u8>) -> Seq<u8> {
    label.take(label_end(label, 0))
}

/// Why an image cannot be recorded, if it cannot.
pub open spec fn manifest_problem(nodes: Seq<Node>, header: ImageHeader) -> Option<VerifyError> {
    match entry_error(nodes, 0) {
        Some(error) => Some(error),
        None => if !vstd::utf8::valid_utf8(label_bytes(header.label@)) {
            Some(VerifyError::LabelNotText)
        } else if header.epoch < 0 || header.epoch + header.build_time > u64::MAX {
            Some(VerifyError::BuildTime)
        } else {
            None
        },
    }
}

/// True for what is recorded of an image.
pub open spec fn is_manifest(
    manifest: MetadataManifest,
    nodes: Seq<Node>,
    header: ImageHeader,
) -> bool {
    &&& manifest.version == 1
    &&& manifest.block_size == header.block_size
    &&& manifest.uuid == header.uuid
    &&& manifest.volume_label@ == vstd::utf8::decode_utf8(label_bytes(header.label@))
    &&& manifest.build_time == header.epoch + header.build_time
    &&& manifest.extraction_root is None
    &&& manifest.entries@.len() == nodes.len()
    &&& forall|i: int|
        0 <= i < nodes.len() ==> {
            &&& (#[trigger] manifest.entries@[i]).0@ == nodes[i].path@
            &&& node_entry(nodes[i]) == Ok::<MetadataModel, VerifyError>(manifest.entries@[i].1@)
        }
}

fn record(node: &Node) -> (entry: Result<EntryMetadata, VerifyError>)
    ensures
        match entry {
            Ok(found) => node_entry(*node) == Ok::<MetadataModel, VerifyError>(found@),
            Err(error) => node_entry(*node) == Err::<MetadataModel, VerifyError>(error),
        },
{
    let mut symlink: Option<String> = None;
    if node.metadata.mode & 0xf000 == S_IFLNK {
        if node.size > MAX_LINK_TARGET {
            return Err(VerifyError::LinkTooLong);
        }
        assert(node.data@.subrange(0, node.data@.len() as int) =~= node.data@);
        match text::decode_text(bytes::copy_range(node.data.as_slice(), 0, node.data.len())) {
            Some(target) => {
                symlink = Some(target);
            },
            None => {
                return Err(VerifyError::LinkNotText);
            },
        }
    }
    let xattrs = attributes::ordered(&node.metadata.xattrs);
    Ok(
        EntryMetadata {
            mode: node.metadata.mode,
            uid: node.metadata.uid,
            gid: node.metadata.gid,
            mtime: node.metadata.mtime,
            mtime_nsec: node.metadata.mtime_nsec,
            rdev: node.metadata.rdev,
            original_nid: Some(node.nid),
            symlink,
            xattrs,
        },
    )
}

/// Records the metadata of the files of an image.
pub fn from_nodes(nodes: &Vec<Node>, header: &ImageHeader) -> (manifest: Result<
    MetadataManifest,
    VerifyError,
>)
    ensures
        match manifest {
            Ok(found) => manifest_problem(nodes@, *header) is None && is_manifest(
                found,
                nodes@,
                *header,
            ),
            Err(error) => manifest_problem(nodes@, *header) == Some(error),
        },
{
    let mut entries: Vec<(String, EntryMetadata)> = Vec::new();
    let mut n: usize = 0;
    while n < nodes.len()
        invariant
            n <= nodes@.len(),
            entries@.len() == n,
            entry_error(nodes@, 0) == entry_error(nodes@, n as int),
            forall|i: int|
                0 <= i < n ==> {
                    &&& (#[trigger] entries@[i]).0@ == nodes@[i].path@
                    &&& node_entry(nodes@[i]) == Ok::<MetadataModel, VerifyError>(entries@[i].1@)
                },
        decreases nodes@.len() - n,
    {
        match record(&nodes[n]) {
            Ok(entry) => {
                entries.push((nodes[n].path.clone(), entry));
            },
            Err(error) => {
                return Err(error);
            },
        }
        n += 1;
    }
    let label = header.label.as_slice();
    let mut end: usize = 0;
    while end < label.len() && label[end] != 0
        invariant
            end <= label@.len(),
            label@ == header.label@,
            label_end(label@, 0) == label_end(label@, end as int),
        decreases label@.len() - end,
    {
        end += 1;
    }
    assert(label@.subrange(0, end as int) =~= label_bytes(label@));
    let volume_label = match text::decode_text(bytes::copy_range(label, 0, end)) {
        Some(volume_label) => volume_label,
        None => {
            return Err(VerifyError::LabelNotText);
        },
    };
    if header.epoch < 0 {
        return Err(VerifyError::BuildTime);
    }
    Ok(
        MetadataManifest {
            version: 1,
            block_size: header.block_size,
            uuid: header.uuid,
            volume_label,
            build_time: header.epoch as u64 + header.build_time as u64,
            extraction_root: None,
            entries,
        },
    )
}

// ---------------------------------------------------------------------------
// The inventory
// ---------------------------------------------------------------------------

/// True for the files whose data is digested.
pub open spec fn is_digested(mode: u32) -> bool {
    mode & 0xf000 == S_IFREG || mode & 0xf000 == S_IFLNK
}

/// The data of an inode: that of the first file that has it.
pub open spec fn data_of(nodes: Seq<Node>, nid: u64, from: int) -> Seq<u8>
    decreases nodes.len() - from,
{
    if from < 0 || from >= nodes.len() {
        seq![]
    } else if is_digested(nodes[from].metadata.mode) && nodes[from].nid == nid {
        nodes[from].data@
    } else {
        data_of(nodes, nid, from + 1)
    }
}

/// The digests of the first `n` files by path.
pub open spec fn digests_of(nodes: Seq<Node>, n: int) -> Map<Seq<char>, Seq<u8>>
    decreases n,
{
    if n <= 0 {
        Map::empty()
    } else if is_digested(nodes[n - 1].metadata.mode) {
        digests_of(nodes, n - 1).insert(
            nodes[n - 1].path@,
            inode::sha256_of(data_of(nodes, nodes[n - 1].nid, 0)),
        )
    } else {
        digests_of(nodes, n - 1)
    }
}

/// What is wrong with an image, the first thing that is: its superblock, its
/// files, the inode with the ends of files, or what is to be recorded of it.
pub open spec fn image_error(
    image: Seq<u8>,
    header: ImageHeader,
    nodes: Seq<Node>,
    packed: Option<Node>,
) -> Option<VerifyError> {
    let limit = filesystem_size(header);
    let packed_size = match packed {
        Some(node) => node.size,
        None => 0,
    };
    match superblock_error(image, header) {
        Some(error) => Some(error),
        None => match nodes_error(nodes, 0, limit, header.packed_nid, packed_size) {
            Some(error) => Some(error),
            None => match packed_error(packed, limit, header.packed_nid, packed_size) {
                Some(error) => Some(error),
                None => manifest_problem(nodes, header),
            },
        },
    }
}

/// What is wrong with the inode that holds the ends of files, if anything is.
pub open spec fn packed_error(packed: Option<Node>, limit: int, packed_nid: u64, size: u64) -> Option<
    VerifyError,
> {
    if packed_nid == 0 {
        None
    } else {
        match packed {
            None => Some(VerifyError::PackedInode),
            Some(node) => node_error(node, limit, packed_nid, size),
        }
    }
}

fn find_data<'a>(nodes: &'a Vec<Node>, nid: u64) -> (data: &'a [u8])
    ensures
        data@ == data_of(nodes@, nid, 0),
{
    let mut n: usize = 0;
    while n < nodes.len()
        invariant
            n <= nodes@.len(),
            data_of(nodes@, nid, 0) == data_of(nodes@, nid, n as int),
        decreases nodes@.len() - n,
    {
        let kind: u32 = nodes[n].metadata.mode & 0xf000;
        if (kind == S_IFREG || kind == S_IFLNK) && nodes[n].nid == nid {
            return nodes[n].data.as_slice();
        }
        n += 1;
    }
    &[]
}

fn digest_nodes(nodes: &Vec<Node>) -> (digests: Vec<(String, Vec<u8>)>)
    ensures
        attributes::is_ordered(digests@),
        attributes::as_map(digests@) == digests_of(nodes@, nodes@.len() as int),
{
    let mut digests: Vec<(String, Vec<u8>)> = Vec::new();
    let mut n: usize = 0;
    assert(attributes::as_map(digests@) =~= Map::empty());
    while n < nodes.len()
        invariant
            n <= nodes@.len(),
            attributes::is_ordered(digests@),
            attributes::as_map(digests@) == digests_of(nodes@, n as int),
        decreases nodes@.len() - n,
    {
        let kind: u32 = nodes[n].metadata.mode & 0xf000;
        if kind == S_IFREG || kind == S_IFLNK {
            let digest = inode::sha256(find_data(nodes, nodes[n].nid));
            attributes::set(&mut digests, nodes[n].path.as_str(), digest);
        }
        n += 1;
    }
    digests
}

fn check_nodes(nodes: &Vec<Node>, limit: u64, packed_nid: u64, packed: u64) -> (checked: Result<
    (),
    VerifyError,
>)
    ensures
        match checked {
            Ok(()) => nodes_error(nodes@, 0, limit as int, packed_nid, packed) is None,
            Err(error) => nodes_error(nodes@, 0, limit as int, packed_nid, packed) == Some(error),
        },
{
    let mut n: usize = 0;
    while n < nodes.len()
        invariant
            n <= nodes@.len(),
            nodes_error(nodes@, 0, limit as int, packed_nid, packed) == nodes_error(
                nodes@,
                n as int,
                limit as int,
                packed_nid,
                packed,
            ),
        decreases nodes@.len() - n,
    {
        if let Err(error) = validate_extents(&nodes[n], limit, packed_nid, packed) {
            return Err(error);
        }
        n += 1;
    }
    Ok(())
}

/// True when `inventory` is that of an image, or what is wrong with it.
pub open spec fn is_inventory(
    image: Seq<u8>,
    header: ImageHeader,
    nodes: Seq<Node>,
    packed: Option<Node>,
    inventory: Result<ImageInventory, VerifyError>,
) -> bool {
    match inventory {
        Ok(found) => {
            &&& image_error(image, header, nodes, packed) is None
            &&& is_manifest(found.metadata, nodes, header)
            &&& attributes::is_ordered(found.sha256@)
            &&& attributes::as_map(found.sha256@) == digests_of(nodes, nodes.len() as int)
        },
        Err(error) => image_error(image, header, nodes, packed) == Some(error),
    }
}

/// True when `checked` says what is wrong with an image, if anything is.
pub open spec fn is_verdict(
    image: Seq<u8>,
    header: ImageHeader,
    nodes: Seq<Node>,
    packed: Option<Node>,
    checked: Result<(), VerifyError>,
) -> bool {
    match checked {
        Ok(()) => image_error(image, header, nodes, packed) is None,
        Err(error) => image_error(image, header, nodes, packed) == Some(error),
    }
}

/// Checks an image with its files, and takes its inventory. `packed` is the
/// inode that holds the ends of files, where there is one.
pub fn image_inventory(
    image: &[u8],
    header: &ImageHeader,
    nodes: &Vec<Node>,
    packed: &Option<Node>,
) -> (inventory: Result<ImageInventory, VerifyError>)
    ensures
        is_inventory(image@, *header, nodes@, *packed, inventory),
{
    let limit: u64 = match check_superblock(image, header) {
        Ok(limit) => limit,
        Err(error) => {
            return Err(error);
        },
    };
    let packed_size: u64 = match packed {
        Some(node) => node.size,
        None => 0,
    };
    if let Err(error) = check_nodes(nodes, limit, header.packed_nid, packed_size) {
        return Err(error);
    }
    if header.packed_nid != 0 {
        match packed {
            Some(node) => {
                if let Err(error) = validate_extents(node, limit, header.packed_nid, packed_size) {
                    return Err(error);
                }
            },
            None => {
                return Err(VerifyError::PackedInode);
            },
        }
    }
    let metadata = match from_nodes(nodes, header) {
        Ok(metadata) => metadata,
        Err(error) => {
            return Err(error);
        },
    };
    Ok(ImageInventory { metadata, sha256: digest_nodes(nodes) })
}

/// Checks an image with its files.
pub fn verify_image(
    image: &[u8],
    header: &ImageHeader,
    nodes: &Vec<Node>,
    packed: &Option<Node>,
) -> (checked: Result<(), VerifyError>)
    ensures
        is_verdict(image@, *header, nodes@, *packed, checked),
{
    match image_inventory(image, header, nodes, packed) {
        Ok(inventory) => Ok(()),
        Err(error) => Err(error),
    }
}

/// Checking an image succeeds exactly where taking its inventory does, and fails
/// with the same error.
pub proof fn law_checks_agree_with_inventories(
    image: Seq<u8>,
    header: ImageHeader,
    nodes: Seq<Node>,
    packed: Option<Node>,
    inventory: Result<ImageInventory, VerifyError>,
    checked: Result<(), VerifyError>,
)
    requires
        is_inventory(image, header, nodes, packed, inventory),
        is_verdict(image, header, nodes, packed, checked),
    ensures
        checked is Ok <==> inventory is Ok,
        checked is Err ==> inventory is Err && checked->Err_0 == inventory->Err_0,
{
}

/// An image is refused where its filesystem is larger than the image, where its
/// superblock states a checksum that it does not have, and where anything is wrong
/// with a file, such as an inode or an extent that ends behind the filesystem.
pub proof fn law_damaged_images_are_refused(
    image: Seq<u8>,
    header: ImageHeader,
    nodes: Seq<Node>,
    packed: Option<Node>,
    checked: Result<(), VerifyError>,
)
    requires
        is_verdict(image, header, nodes, packed, checked),
    ensures
        filesystem_size(header) > image.len() ==> checked is Err,
        header.checksum matches Some(checksum) ==> 0xffff_ffff - inode::crc32c_of(
            checksum_area(image, header.block_size as int),
        ) != checksum ==> checked is Err,
        (exists|i: int|
            0 <= i < nodes.len() && node_error(
                #[trigger] nodes[i],
                filesystem_size(header),
                header.packed_nid,
                match packed {
                    Some(node) => node.size,
                    None => 0,
                },
            ) is Some) ==> checked is Err,
{
    let size = match packed {
        Some(node) => node.size,
        None => 0,
    };
    let limit = filesystem_size(header);
    if exists|i: int|
        0 <= i < nodes.len() && node_error(
            #[trigger] nodes[i],
            limit,
            header.packed_nid,
            size,
        ) is Some {
        let i = choose|i: int|
            0 <= i < nodes.len() && node_error(
                #[trigger] nodes[i],
                limit,
                header.packed_nid,
                size,
            ) is Some;
        lemma_nodes_error(nodes, 0, limit, header.packed_nid, size, i);
    }
}

/// The error of a file is an error of the files.
proof fn lemma_nodes_error(
    nodes: Seq<Node>,
    from: int,
    limit: int,
    packed_nid: u64,
    packed: u64,
    i: int,
)
    requires
        0 <= from <= i < nodes.len(),
        node_error(nodes[i], limit, packed_nid, packed) is Some,
    ensures
        nodes_error(nodes, from, limit, packed_nid, packed) is Some,
    decreases i - from,
{
    if from < i {
        lemma_nodes_error(nodes, from + 1, limit, packed_nid, packed, i);
    }
}

impl ImageInventory {
    /// The digest at a place, in hexadecimal.
    pub fn digest_text(&self, at: usize) -> (digest: String)
        requires
            at < self.sha256@.len(),
        ensures
            digest@ == der::lower_hex(self.sha256@[at as int].1@),
    {
        der::encode(self.sha256[at].1.as_slice())
    }
}

// ---------------------------------------------------------------------------
// Laws
// ---------------------------------------------------------------------------

/// The extents of a sound file cover all of its data: every byte lies in one.
pub proof fn law_extents_cover_the_data(
    node: Node,
    limit: int,
    packed_nid: u64,
    packed: u64,
    byte: int,
)
    requires
        node_error(node, limit, packed_nid, packed) is None,
        has_data(node.metadata.mode),
        0 <= byte < node.size,
    ensures
        exists|i: int|
            {
                &&& 0 <= i < node.extents@.len()
                &&& (#[trigger] node.extents@[i]).logical <= byte
                &&& byte < node.extents@[i].logical + node.extents@[i].length
            },
{
    lemma_covered(node, 0, 0, limit, packed_nid, packed, byte);
}

proof fn lemma_covered(
    node: Node,
    at: int,
    offset: int,
    limit: int,
    packed_nid: u64,
    packed: u64,
    byte: int,
)
    requires
        extents_error(node, at, offset, limit, packed_nid, packed) is None,
        offset <= byte < node.size,
        at >= 0,
    ensures
        exists|i: int|
            {
                &&& 0 <= i < node.extents@.len()
                &&& (#[trigger] node.extents@[i]).logical <= byte
                &&& byte < node.extents@[i].logical + node.extents@[i].length
            },
    decreases node.extents@.len() - at,
{
    let extent = node.extents@[at];
    let end = extent.logical + extent.length;
    if byte >= end {
        lemma_covered(node, at + 1, end, limit, packed_nid, packed, byte);
    }
}

/// A superblock with its checksum, in an area of zeros: without the checksum it
/// is the same area that the checksum was computed from.
proof fn lemma_checksum_area(image: Seq<u8>, s: inode::Superblock)
    requires
        compression::is_block_size(s.block_size as int),
        image.len() >= 4096,
        image.take(4096) == inode::initial_area(s),
    ensures
        checksum_end(s.block_size as int) <= 4096,
        checksum_end(s.block_size as int) >= 1032,
        ({
            let area = inode::superblock_area(inode::Superblock { checksum: 0, ..s }, 4096);
            let checksum = inode::checksum_of(s, 4096);
            &&& checksum_area(image, s.block_size as int) == area.take(
                inode::checksum_length(s.block_size),
            )
            &&& image.subrange(1028, 1032) == bytes::bytes32(checksum)
            &&& image.subrange(1060, 1064) == bytes::bytes32(s.blocks)
        }),
{
    let b = s.block_size as int;
    let end = checksum_end(b);
    let n = inode::checksum_length(s.block_size);
    assert(inode::initial_size(s.block_size) == 4096);
    assert(end == 1024 + n);
    let checksum = inode::checksum_of(s, 4096);
    let with = inode::Superblock { checksum, ..s };
    let without = inode::Superblock { checksum: 0, ..s };
    inode::lemma_superblock_bytes(s, checksum);
    inode::lemma_superblock_bytes(s, 0);
    let stored = inode::superblock_area(with, 4096);
    let plain = inode::superblock_area(without, 4096);
    let head = image.take(4096);
    assert(head == bytes::filled(0, 1024) + stored);
    assert(bytes::filled(0, 1024).len() == 1024);
    assert(head.len() == 1024 + stored.len());
    assert(stored.len() == 3072);
    assert(image.subrange(1024, end) =~= stored.take(n)) by {
        assert forall|i: int| 0 <= i < n implies image.subrange(1024, end)[i] == stored.take(
            n,
        )[i] by {
            assert(image[1024 + i] == head[1024 + i]);
        }
    }
    assert(image.subrange(1028, 1032) =~= inode::superblock_bytes(with).subrange(4, 8)) by {
        assert forall|i: int| 0 <= i < 4 implies image.subrange(1028, 1032)[i]
            == inode::superblock_bytes(with).subrange(4, 8)[i] by {
            assert(image[1028 + i] == head[1028 + i]);
            assert(head[1028 + i] == stored[4 + i]);
        }
    }
    assert(image.subrange(1060, 1064) =~= inode::superblock_bytes(with).subrange(36, 40)) by {
        assert forall|i: int| 0 <= i < 4 implies image.subrange(1060, 1064)[i]
            == inode::superblock_bytes(with).subrange(36, 40)[i] by {
            assert(image[1060 + i] == head[1060 + i]);
            assert(head[1060 + i] == stored[36 + i]);
        }
    }
    let zeros = bytes::filled(0, 4);
    assert(bytes::bytes32(0) =~= zeros);
    assert(bytes::patched(stored.take(n), 4, zeros) =~= plain.take(n)) by {
        let patched = bytes::patched(stored.take(n), 4, zeros);
        assert forall|i: int| 0 <= i < n implies patched[i] == plain.take(n)[i] by {
            if 4 <= i < 8 {
                assert(patched[i] == zeros[i - 4]);
                assert(inode::superblock_bytes(without).subrange(4, 8)[i - 4] == zeros[i - 4]);
            } else {
                assert(patched[i] == stored[i]);
                if i < inode::superblock_bytes(s).len() {
                    assert(inode::superblock_bytes(with)[i] == inode::superblock_bytes(s)[i]);
                    assert(inode::superblock_bytes(without)[i] == inode::superblock_bytes(s)[i]);
                }
            }
        }
    }
}

/// A 32-bit number reads back from where its bytes stand.
proof fn lemma_number_at(data: Seq<u8>, at: int, v: int)
    requires
        0 <= at,
        at + 4 <= data.len(),
        0 <= v < 0x1_0000_0000,
        data.subrange(at, at + 4) == bytes::bytes32(v),
    ensures
        bytes::le32(data, at) == v,
{
    bytes::lemma_bytes32(v);
    assert forall|i: int| 0 <= i < 4 implies data[at + i] == bytes::bytes32(v)[i] by {
        assert(data.subrange(at, at + 4)[i] == data[at + i]);
    }
}

proof fn lemma_initial_size(block_size: u32)
    requires
        compression::is_block_size(block_size as int),
    ensures
        inode::initial_size(block_size) == 4096,
{
}

proof fn lemma_sound(built: Seq<u8>, s: inode::Superblock, header: ImageHeader)
    requires
        compression::is_block_size(s.block_size as int),
        built.len() >= 4096,
        built.take(4096) == inode::initial_area(s),
        s.blocks == built.len() as int / s.block_size as int,
        s.blocks <= u32::MAX,
        built.len() as int % s.block_size as int == 0,
        header.blocks == bytes::le32(built, 1060),
        header.block_size == s.block_size,
        header.superblock_size == MIN_SUPERBLOCK,
        s.stores_checksum ==> header.checksum is Some && header.checksum->0 == bytes::le32(
            built,
            1028,
        ),
        !s.stores_checksum ==> header.checksum is None,
    ensures
        superblock_error(built, header) is None,
        filesystem_size(header) == built.len(),
{
    let b = s.block_size as int;
    let length = built.len() as int;
    let blocks = s.blocks;
    lemma_initial_size(s.block_size);
    lemma_checksum_area(built, s);
    lemma_number_at(built, 1060, blocks);
    assert(blocks * b == length) by (nonlinear_arith)
        requires
            blocks == length / b,
            length % b == 0,
            b > 0,
    ;
    assert(blocks * b <= 0x1000_0000_0000) by (nonlinear_arith)
        requires
            0 <= blocks <= u32::MAX,
            0 < b <= 4096,
    ;
    if s.stores_checksum {
        lemma_number_at(built, 1028, inode::checksum_of(s, 4096));
    }
}

/// Every image that is built is sound where its superblock is concerned: read
/// back from the image, the number of blocks is the length of the image and the
/// checksum is that of the superblock.
#[verifier::rlimit(50)]
#[verifier::spinoff_prover]
pub proof fn law_built_images_have_sound_superblocks<
    F: Fn(&[u8], usize) -> Option<(usize, Vec<u8>)>,
>(
    lz4: F,
    before: Seq<Entry>,
    contents: Seq<Vec<u8>>,
    options: BuildOptions,
    epoch: u64,
    current_time: u64,
    shared: Seq<u8>,
    now: Seq<Entry>,
    built: Seq<u8>,
    report: BuildReport,
    header: ImageHeader,
)
    requires
        build_options::invalid(options@) is None,
        contents.len() == before.len(),
        image::is_buildable(before, options.block_size as int, epoch),
        image::builds_to(
            lz4,
            before,
            contents,
            options,
            epoch,
            current_time,
            shared,
            now,
            built,
            report,
        ),
        header.blocks == bytes::le32(built, 1060),
        header.block_size == options.block_size,
        header.superblock_size == MIN_SUPERBLOCK,
        options.checksum ==> header.checksum is Some && header.checksum->0 == bytes::le32(
            built,
            1028,
        ),
        !options.checksum ==> header.checksum is None,
    ensures
        superblock_error(built, header) is None,
        filesystem_size(header) == built.len(),
{
    let steps = choose|steps: Steps|
        #[trigger] image::is_image(
            lz4,
            before,
            contents,
            options,
            epoch,
            current_time,
            shared,
            steps,
            now,
            built,
        ) && image::reports(steps.staged, before.len() as int, report) && report.image_bytes
            == built.len();
    let b = options.block_size as int;
    let l = shared.len() as int;
    let s = image::final_superblock(
        now,
        options,
        epoch,
        image::time_of(options, current_time),
        l,
        image::shared_start(steps.staged, b),
        built.len() as int,
    );
    assert(compression::is_block_size(b));
    let start = image::data_start(steps.staged, b, l);
    let head = built.take(start);
    assert(image::is_head(
        head,
        inode::initial_area(s),
        now,
        epoch,
        shared,
        image::shared_start(steps.staged, b),
        start,
    ));
    image::lemma_staged(lz4, before, contents, options, steps.staged, steps.pieces, epoch);
    image::lemma_area(steps.staged, b, epoch);
    image::lemma_areas(steps.staged, b, l);
    assert(built.take(4096) =~= head.take(4096));
    lemma_sound(built, s, header);
}

/// What is recorded of a file is its metadata, with its number; a link also with its
/// target, which has at most 65535 bytes of UTF-8, and no other file with one.
pub proof fn law_files_are_recorded(node: Node)
    ensures
        ({
            let link = node.metadata.mode & 0xf000 == 0xa000;
            &&& node_entry(node) matches Ok(m) ==> m.mode == node.metadata.mode && m.uid
                == node.metadata.uid && m.gid == node.metadata.gid && m.mtime == node.metadata.mtime
                && m.mtime_nsec == node.metadata.mtime_nsec && m.rdev == node.metadata.rdev
                && m.original_nid == Some(node.nid) && m.xattrs == node.metadata@.xattrs && (
            m.symlink is Some <==> link) && (link ==> m.symlink == Some(
                vstd::utf8::decode_utf8(node.data@),
            ))
            &&& node_entry(node) is Ok <==> !link || (node.size <= 65_535
                && vstd::utf8::valid_utf8(node.data@))
        }),
{
}

/// The label ends before its first zero, or with its bytes.
pub proof fn law_labels_end_at_a_zero(label: Seq<u8>, from: int)
    requires
        0 <= from <= label.len(),
    ensures
        ({
            let end = label_end(label, from);
            &&& from <= end <= label.len()
            &&& forall|i: int| from <= i < end ==> #[trigger] label[i] != 0
            &&& end < label.len() ==> label[end] == 0
        }),
        label_bytes(label) == label.take(label_end(label, 0)),
    decreases label.len() - from,
{
    if from < label.len() && label[from] != 0 {
        law_labels_end_at_a_zero(label, from + 1);
    }
}

/// The files of an inventory have digests where they are regular files or links:
/// each by its path the SHA-256 digest of the data of its inode, which is that of the
/// first such file with its number.
pub proof fn law_digests_are_those_of_the_data(nodes: Seq<Node>, n: int, path: Seq<char>)
    requires
        0 <= n <= nodes.len(),
    ensures
        digests_of(nodes, n).contains_key(path) <==> exists|i: int|
            0 <= i < n && (#[trigger] nodes[i]).path@ == path && (nodes[i].metadata.mode & 0xf000
                == 0x8000 || nodes[i].metadata.mode & 0xf000 == 0xa000),
        digests_of(nodes, n).contains_key(path) ==> exists|i: int|
            0 <= i < n && (#[trigger] nodes[i]).path@ == path && digests_of(nodes, n)[path]
                == inode::sha256_of(data_of(nodes, nodes[i].nid, 0)),
    decreases n,
{
    if n > 0 {
        law_digests_are_those_of_the_data(nodes, n - 1, path);
        let node = nodes[n - 1];
        if is_digested(node.metadata.mode) && node.path@ == path {
            assert(nodes[n - 1].path@ == path);
        } else if digests_of(nodes, n).contains_key(path) {
            let i = choose|i: int|
                0 <= i < n - 1 && (#[trigger] nodes[i]).path@ == path && digests_of(nodes, n - 1)[path]
                    == inode::sha256_of(data_of(nodes, nodes[i].nid, 0));
            assert(nodes[i].path@ == path);
        }
        if exists|i: int|
            0 <= i < n && (#[trigger] nodes[i]).path@ == path && (nodes[i].metadata.mode & 0xf000
                == 0x8000 || nodes[i].metadata.mode & 0xf000 == 0xa000) {
            let i = choose|i: int|
                0 <= i < n && (#[trigger] nodes[i]).path@ == path && (nodes[i].metadata.mode & 0xf000
                    == 0x8000 || nodes[i].metadata.mode & 0xf000 == 0xa000);
            if i < n - 1 {
                assert(nodes[i].path@ == path);
            }
        }
    }
}

/// The data of an inode is that of the first regular file or link with its number.
pub proof fn law_inodes_have_the_data_of_their_first_file(nodes: Seq<Node>, nid: u64, i: int)
    requires
        0 <= i < nodes.len(),
        nodes[i].nid == nid,
        nodes[i].metadata.mode & 0xf000 == 0x8000 || nodes[i].metadata.mode & 0xf000 == 0xa000,
        forall|k: int| 0 <= k < i ==> (#[trigger] nodes[k]).nid != nid,
    ensures
        data_of(nodes, nid, 0) == nodes[i].data@,
{
    lemma_data_of(nodes, nid, 0, i);
}

proof fn lemma_data_of(nodes: Seq<Node>, nid: u64, from: int, i: int)
    requires
        0 <= from <= i < nodes.len(),
        nodes[i].nid == nid,
        is_digested(nodes[i].metadata.mode),
        forall|k: int| from <= k < i ==> (#[trigger] nodes[k]).nid != nid,
    ensures
        data_of(nodes, nid, from) == nodes[i].data@,
    decreases i - from,
{
    if from < i {
        assert(nodes[from].nid != nid);
        lemma_data_of(nodes, nid, from + 1, i);
    }
}

/// An extent of a file is accepted where it covers the offset it is looked up for
/// and ends within the filesystem on this device, or within the inode for the ends of
/// files where it is a fragment.
pub proof fn law_sound_extents(
    node: Node,
    offset: int,
    extent: Extent,
    limit: int,
    packed_nid: u64,
    packed: u64,
)
    ensures
        extent_error(node, offset, extent, limit, packed_nid, packed) is None <==> {
            let end = extent.logical + extent.length;
            let own = if end < node.size {
                extent.length as int
            } else {
                node.size - extent.logical
            };
            &&& end <= u64::MAX && extent.logical <= offset < end
            &&& extent.is_fragment ==> packed_nid != 0 && packed_nid != node.nid
                && node.fragment_offset + own <= packed
            &&& extent.is_mapped && !extent.is_fragment ==> extent.device == 0 && extent.physical
                + extent.physical_length <= limit
        },
{
}

/// An image is recorded where all of its files are, its label is UTF-8 and its time
/// is one of 64 bits.
pub proof fn law_images_are_recorded(nodes: Seq<Node>, header: ImageHeader)
    ensures
        manifest_problem(nodes, header) is None <==> {
            &&& forall|i: int| 0 <= i < nodes.len() ==> node_entry(#[trigger] nodes[i]) is Ok
            &&& vstd::utf8::valid_utf8(label_bytes(header.label@))
            &&& header.epoch >= 0
            &&& header.epoch + header.build_time <= u64::MAX
        },
{
    lemma_entry_error(nodes, 0);
}

proof fn lemma_entry_error(nodes: Seq<Node>, from: int)
    requires
        0 <= from,
    ensures
        entry_error(nodes, from) is None <==> forall|i: int|
            from <= i < nodes.len() ==> node_entry(#[trigger] nodes[i]) is Ok,
    decreases nodes.len() - from,
{
    if from < nodes.len() {
        lemma_entry_error(nodes, from + 1);
    }
}

/// What is recorded of an image are its block size, identifier and label, the time
/// of its first second and its build time together, and all of its files in their
/// order, each under its path.
pub proof fn law_manifests_record_images(
    manifest: MetadataManifest,
    nodes: Seq<Node>,
    header: ImageHeader,
)
    requires
        is_manifest(manifest, nodes, header),
    ensures
        manifest.version == 1,
        manifest.block_size == header.block_size,
        manifest.uuid == header.uuid,
        manifest.volume_label@ == vstd::utf8::decode_utf8(label_bytes(header.label@)),
        manifest.build_time == header.epoch + header.build_time,
        manifest.entries@.len() == nodes.len(),
        forall|i: int|
            0 <= i < nodes.len() ==> (#[trigger] manifest.entries@[i]).0@ == nodes[i].path@
                && manifest.entries@[i].1.mode == nodes[i].metadata.mode
                && manifest.entries@[i].1.uid == nodes[i].metadata.uid
                && manifest.entries@[i].1.original_nid == Some(nodes[i].nid),
{
    assert forall|i: int| 0 <= i < nodes.len() implies (#[trigger] manifest.entries@[i]).0@
        == nodes[i].path@ && manifest.entries@[i].1.mode == nodes[i].metadata.mode
        && manifest.entries@[i].1.uid == nodes[i].metadata.uid
        && manifest.entries@[i].1.original_nid == Some(nodes[i].nid) by {
        law_files_are_recorded(nodes[i]);
        assert(node_entry(nodes[i]) == Ok::<MetadataModel, VerifyError>(manifest.entries@[i].1@));
        assert(manifest.entries@[i].1@.mode == manifest.entries@[i].1.mode);
    }
}

/// The checksum of an image covers the bytes from the superblock on to the end of
/// its block, with zeros in place of the checksum itself.
pub proof fn law_checksums_cover_the_first_block(image: Seq<u8>, block_size: int)
    requires
        block_size == 512 || block_size == 1024 || block_size == 2048 || block_size == 4096,
        image.len() >= 4096,
    ensures
        ({
            let end: int = if block_size == 512 {
                1536
            } else if block_size == 4096 {
                4096
            } else {
                2048
            };
            let area = checksum_area(image, block_size);
            &&& checksum_end(block_size) == end
            &&& area.len() == end - 1024
            &&& forall|i: int| 0 <= i < 4 ==> #[trigger] area[i] == image[1024 + i]
            &&& forall|i: int| 4 <= i < 8 ==> #[trigger] area[i] == 0
            &&& forall|i: int| 8 <= i < area.len() ==> #[trigger] area[i] == image[1024 + i]
        }),
{
    let area = checksum_area(image, block_size);
    let part = image.subrange(1024, checksum_end(block_size));
    assert(part.len() == checksum_end(block_size) - 1024);
    assert(forall|i: int| 0 <= i < part.len() ==> #[trigger] part[i] == image[1024 + i]);
}

/// A superblock is sound where the image has at least the 128 bytes of one at 1024,
/// the filesystem is not larger than the image and has room for the superblock, and
/// the checksum, where one is stated, is the CRC-32C of what it covers, as such sums
/// are kept: with all bits inverted.
pub proof fn law_sound_superblocks(image: Seq<u8>, header: ImageHeader)
    ensures
        superblock_error(image, header) is None <==> {
            let size = header.blocks * header.block_size;
            let end = checksum_end(header.block_size as int);
            &&& image.len() >= 1152
            &&& size <= image.len() && size <= u64::MAX
            &&& size >= 1024 + header.superblock_size
            &&& header.checksum is Some ==> 1032 <= end <= image.len() && header.checksum->0
                + inode::crc32c_of(checksum_area(image, header.block_size as int)) == 4_294_967_295
        },
        superblock_error(image, header) == Some(VerifyError::Checksum) ==> header.checksum is Some,
{
}

/// An image is sound where its superblock is, each of its files, the inode for the
/// ends of files where there is one, and what is to be recorded of it.
pub proof fn law_sound_images_are_accepted(
    image: Seq<u8>,
    header: ImageHeader,
    nodes: Seq<Node>,
    packed: Option<Node>,
)
    ensures
        ({
            let limit = header.blocks * header.block_size;
            let size: u64 = if packed is Some {
                packed->0.size
            } else {
                0
            };
            image_error(image, header, nodes, packed) is None <==> {
                &&& superblock_error(image, header) is None
                &&& forall|i: int|
                    0 <= i < nodes.len() ==> node_error(
                        #[trigger] nodes[i],
                        limit,
                        header.packed_nid,
                        size,
                    ) is None
                &&& header.packed_nid != 0 ==> packed is Some && node_error(
                    packed->0,
                    limit,
                    header.packed_nid,
                    size,
                ) is None
                &&& manifest_problem(nodes, header) is None
            }
        }),
{
    let size: u64 = if packed is Some {
        packed->0.size
    } else {
        0
    };
    lemma_all_sound(nodes, 0, filesystem_size(header), header.packed_nid, size);
}

proof fn lemma_all_sound(nodes: Seq<Node>, from: int, limit: int, packed_nid: u64, packed: u64)
    requires
        0 <= from,
    ensures
        nodes_error(nodes, from, limit, packed_nid, packed) is None <==> forall|i: int|
            from <= i < nodes.len() ==> node_error(
                #[trigger] nodes[i],
                limit,
                packed_nid,
                packed,
            ) is None,
    decreases nodes.len() - from,
{
    if from < nodes.len() {
        lemma_all_sound(nodes, from + 1, limit, packed_nid, packed);
    }
}

/// A file is sound where its inode and attributes end within the filesystem and, for
/// a regular file, a link or a directory, all of its extents are.
pub proof fn law_sound_files(node: Node, limit: int, packed_nid: u64, packed: u64)
    ensures
        node_error(node, limit, packed_nid, packed) is None <==> {
            let end = node.offset + node.inode_size + node.xattr_size;
            let kind = node.metadata.mode & 0xf000;
            &&& end <= limit && end <= u64::MAX
            &&& kind == 0x8000 || kind == 0xa000 || kind == 0x4000 ==> extents_error(
                node,
                0,
                0,
                limit,
                packed_nid,
                packed,
            ) is None
        },
{
}

} // verus!
