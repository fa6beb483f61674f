//! The bytes of inodes and of the superblock.

use vstd::prelude::*;

use crate::bytes;
use crate::erofs::build_options::BuildOptions;
use crate::erofs::layout;
use crate::erofs::layout::{EROFS_FEATURE_COMPAT_MTIME, EROFS_SUPER_MAGIC_V1};
use crate::erofs::prepare;
use crate::erofs::tree::Entry;

verus! {

/// The SHA-256 digest of the data.
pub uninterp spec fn sha256_of(data: Seq<u8>) -> Seq<u8>;

/// The CRC-32C checksum of the data.
pub uninterp spec fn crc32c_of(data: Seq<u8>) -> u32;

/// `sha2::Sha256::digest`. The result has a name; it is 32 bytes long.
#[verifier::external_body]
pub(crate) fn sha256(data: &[u8]) -> (digest: Vec<u8>)
    ensures
        digest@ == sha256_of(data@),
        digest@.len() == 32,
{
    <sha2::Sha256 as sha2::Digest>::digest(data).to_vec()
}

/// `crc32c::crc32c`. The result has a name.
#[verifier::external_body]
pub(crate) fn crc32c(data: &[u8]) -> (checksum: u32)
    ensures
        checksum == crc32c_of(data@),
{
    crc32c::crc32c(data)
}

/// The digest of the contents of a file.
pub fn content_digest(data: &[u8]) -> (digest: Vec<u8>)
    ensures
        digest@ == sha256_of(data@),
        digest@.len() == 32,
{
    sha256(data)
}

// ---------------------------------------------------------------------------
// Inodes
// ---------------------------------------------------------------------------

/// The number that an inode states for its extended attributes.
pub open spec fn xattr_count(xattrs: Seq<u8>) -> int {
    if xattrs.len() == 0 {
        0
    } else {
        1 + (xattrs.len() - 12) / 4
    }
}

/// The bytes of an inode, in its short or its long form.
pub open spec fn inode_bytes(e: Entry, number: int, epoch: u64) -> Seq<u8> {
    let extended: int = if e.inode_size == 64 {
        1
    } else {
        0
    };
    let head = bytes::bytes16(extended + 2 * e.layout) + bytes::bytes16(xattr_count(e.xattrs@))
        + bytes::bytes16(e.metadata.mode as int);
    if e.inode_size == 64 {
        head + bytes::bytes16(0) + bytes::bytes64(e.size as int) + bytes::bytes32(
            e.data_union as int,
        ) + bytes::bytes32(number) + bytes::bytes32(e.metadata.uid as int) + bytes::bytes32(
            e.metadata.gid as int,
        ) + bytes::bytes64(e.metadata.mtime as int) + bytes::bytes32(e.metadata.mtime_nsec as int)
            + bytes::bytes32(e.links as int) + bytes::filled(0, 16)
    } else {
        head + bytes::bytes16(e.links as int) + bytes::bytes32(e.size as int) + bytes::bytes32(
            e.metadata.mtime - epoch,
        ) + bytes::bytes32(e.data_union as int) + bytes::bytes32(number) + bytes::bytes16(
            e.metadata.uid as int,
        ) + bytes::bytes16(e.metadata.gid as int) + bytes::filled(0, 4)
    }
}

/// True when the fields of an entry are those of an inode: one of the two
/// sizes, a short one only where its fields fit, a mode of 16 bits, a known
/// layout, and attributes whose number fits.
pub open spec fn is_inode(e: Entry, epoch: u64) -> bool {
    &&& e.inode_size == 32 || e.inode_size == 64
    &&& e.inode_size == 32 ==> prepare::fits_compact(e, e.size as int, epoch)
    &&& e.metadata.mode <= 0xffff
    &&& e.layout <= 3
    &&& e.xattrs@.len() == 0 || 12 <= e.xattrs@.len() < 12 + 4 * 0xffff
    &&& e.xattrs@.len() % 4 == 0
}

pub fn encode_inode(e: &Entry, number: u32, epoch: u64) -> (inode: Vec<u8>)
    requires
        is_inode(*e, epoch),
    ensures
        inode@ == inode_bytes(*e, number as int, epoch),
        inode@.len() == e.inode_size,
{
    let extended = e.inode_size == 64;
    let count: usize = if e.xattrs.len() == 0 {
        0
    } else {
        1 + (e.xattrs.len() - 12) / 4
    };
    let mut inode: Vec<u8> = Vec::new();
    bytes::push_u16(
        &mut inode,
        (if extended {
            1u16
        } else {
            0u16
        }) + 2 * (e.layout as u16),
    );
    bytes::push_u16(&mut inode, count as u16);
    bytes::push_u16(&mut inode, e.metadata.mode as u16);
    if extended {
        bytes::push_u16(&mut inode, 0);
        bytes::push_u64(&mut inode, e.size);
        bytes::push_u32(&mut inode, e.data_union);
        bytes::push_u32(&mut inode, number);
        bytes::push_u32(&mut inode, e.metadata.uid);
        bytes::push_u32(&mut inode, e.metadata.gid);
        bytes::push_u64(&mut inode, e.metadata.mtime);
        bytes::push_u32(&mut inode, e.metadata.mtime_nsec);
        bytes::push_u32(&mut inode, e.links);
        bytes::push_filled(&mut inode, 0, 16);
    } else {
        bytes::push_u16(&mut inode, e.links as u16);
        bytes::push_u32(&mut inode, e.size as u32);
        bytes::push_u32(&mut inode, (e.metadata.mtime - epoch) as u32);
        bytes::push_u32(&mut inode, e.data_union);
        bytes::push_u32(&mut inode, number);
        bytes::push_u16(&mut inode, e.metadata.uid as u16);
        bytes::push_u16(&mut inode, e.metadata.gid as u16);
        bytes::push_filled(&mut inode, 0, 4);
    }
    assert(inode@ =~= inode_bytes(*e, number as int, epoch));
    inode
}

/// An inode with what stands behind it: its attributes, and the indexes or the
/// inline data of the file.
pub open spec fn body_bytes(e: Entry, number: int, epoch: u64) -> Seq<u8> {
    let head = inode_bytes(e, number, epoch) + e.xattrs@;
    if layout::is_compressed(e.layout) {
        head + bytes::filled(0, layout::rounded(head.len() as int, 8) - head.len()) + e.compression@
    } else {
        head + e.inline@
    }
}

/// A body takes as many bytes as its slots were asked for.
pub proof fn lemma_body_len(e: Entry, number: int, epoch: u64)
    requires
        is_inode(e, epoch),
    ensures
        body_bytes(e, number, epoch).len() == e.body_len(),
        inode_bytes(e, number, epoch).len() == e.inode_size,
{
    layout::lemma_rounded(e.inode_size + e.xattrs@.len(), 8);
}

pub fn encode_body(e: &Entry, number: u32, epoch: u64) -> (body: Vec<u8>)
    requires
        is_inode(*e, epoch),
    ensures
        body@ == body_bytes(*e, number as int, epoch),
{
    let mut body = encode_inode(e, number, epoch);
    bytes::push_all(&mut body, e.xattrs.as_slice());
    if layout::erofs_inode_is_data_compressed(e.layout) {
        let length: u64 = body.len() as u64;
        let padding: usize = (layout::round_up(length, 8) - length) as usize;
        bytes::push_filled(&mut body, 0, padding);
        bytes::push_all(&mut body, e.compression.as_slice());
    } else {
        bytes::push_all(&mut body, e.inline.as_slice());
    }
    assert(body@ =~= body_bytes(*e, number as int, epoch));
    body
}

// ---------------------------------------------------------------------------
// The superblock
// ---------------------------------------------------------------------------

/// What the identifier of an image is derived from where none is chosen.
pub open spec fn identity(entries: Seq<Entry>, epoch: u64, n: int) -> Seq<u8>
    decreases n,
{
    if n <= 0 {
        bytes::bytes64(epoch as int)
    } else {
        identity(entries, epoch, n - 1) + vstd::utf8::encode_utf8(entries[n - 1].path@)
            + bytes::bytes64(entries[n - 1].size as int)
    }
}

/// The first sixteen bytes of a digest, marked as a random identifier.
pub open spec fn derived_uuid(digest: Seq<u8>) -> Seq<u8> {
    digest.take(16).update(6, (digest[6] % 16 + 0x40) as u8).update(
        8,
        (digest[8] % 64 + 0x80) as u8,
    )
}

/// The identifier of an image: the chosen one, or one derived from its files.
pub open spec fn image_uuid(chosen: Option<[u8; 16]>, entries: Seq<Entry>, epoch: u64) -> Seq<u8> {
    match chosen {
        Some(uuid) => uuid@,
        None => derived_uuid(sha256_of(identity(entries, epoch, entries.len() as int))),
    }
}

/// True when an identifier is chosen, or a whole digest is there to derive it
/// from.
pub open spec fn has_digest(chosen: Option<[u8; 16]>, entries: Seq<Entry>, epoch: u64) -> bool {
    chosen is None ==> sha256_of(identity(entries, epoch, entries.len() as int)).len() == 32
}

/// Marks the first sixteen bytes of a digest as a random identifier.
pub fn mark_uuid(digest: &[u8]) -> (uuid: Vec<u8>)
    requires
        digest@.len() >= 16,
    ensures
        uuid@ == derived_uuid(digest@),
{
    let mut uuid = bytes::copy_range(digest, 0, 16);
    assert(uuid@ =~= digest@.take(16));
    let sixth: u8 = uuid[6] % 16 + 0x40;
    let eighth: u8 = uuid[8] % 64 + 0x80;
    uuid[6] = sixth;
    uuid[8] = eighth;
    assert(uuid@ =~= derived_uuid(digest@));
    uuid
}

fn find_uuid(chosen: &Option<[u8; 16]>, entries: &Vec<Entry>, epoch: u64) -> (uuid: Vec<u8>)
    ensures
        uuid@ == image_uuid(*chosen, entries@, epoch),
        uuid@.len() == 16,
        has_digest(*chosen, entries@, epoch),
{
    if let Some(found) = chosen {
        let mut uuid: Vec<u8> = Vec::new();
        bytes::push_all(&mut uuid, found.as_slice());
        assert(uuid@ =~= found@);
        return uuid;
    }
    let mut data: Vec<u8> = Vec::new();
    bytes::push_u64(&mut data, epoch);
    assert(data@ =~= identity(entries@, epoch, 0));
    let mut n: usize = 0;
    while n < entries.len()
        invariant
            n <= entries@.len(),
            data@ == identity(entries@, epoch, n as int),
        decreases entries@.len() - n,
    {
        bytes::push_all(&mut data, entries[n].path.as_str().as_bytes());
        bytes::push_u64(&mut data, entries[n].size);
        n += 1;
        assert(data@ =~= identity(entries@, epoch, n as int));
    }
    let digest = sha256(data.as_slice());
    mark_uuid(digest.as_slice())
}

/// How many of the first `n` files have their own inode.
pub open spec fn inode_count(entries: Seq<Entry>, n: int) -> nat
    decreases n,
{
    if n <= 0 {
        0
    } else {
        inode_count(entries, n - 1) + if entries[n - 1].alias is None {
            1nat
        } else {
            0nat
        }
    }
}

/// True when some file is stored compressed.
pub open spec fn has_compressed(entries: Seq<Entry>) -> bool {
    exists|i: int| 0 <= i < entries.len() && layout::is_compressed((#[trigger] entries[i]).layout)
}

/// The base-two logarithm of a block size.
pub open spec fn block_bits(block_size: u32) -> u8 {
    if block_size == 512 {
        9
    } else if block_size == 1024 {
        10
    } else if block_size == 2048 {
        11
    } else {
        12
    }
}

/// How long after the epoch an image was built, in the superblock's 32 bits.
pub open spec fn build_age(build_time: u64, epoch: u64) -> int {
    if build_time < epoch {
        0
    } else if build_time - epoch > 0xffff_ffff {
        0xffff_ffff
    } else {
        build_time - epoch
    }
}

/// What the superblock states of an image.
pub struct Superblock {
    pub checksum: int,
    pub stores_checksum: bool,
    pub block_size: u32,
    pub cluster_size: u32,
    pub root_nid: int,
    pub inodes: int,
    pub epoch: u64,
    pub blocks: int,
    pub metadata_block: int,
    pub xattr_block: int,
    pub uuid: Seq<u8>,
    pub label: Seq<u8>,
    pub compressed: bool,
    pub age: int,
}

/// The superblock and the compression settings behind it.
pub open spec fn superblock_bytes(s: Superblock) -> Seq<u8> {
    let big = s.compressed && s.cluster_size > s.block_size;
    let compat: int = if s.stores_checksum {
        3
    } else {
        2
    };
    let incompat: int = if big {
        3
    } else if s.compressed {
        1
    } else {
        0
    };
    let lz4: int = if big {
        1
    } else if s.compressed {
        0xffff
    } else {
        0
    };
    bytes::bytes32(EROFS_SUPER_MAGIC_V1 as int) + bytes::bytes32(s.checksum) + bytes::bytes32(compat)
        + seq![block_bits(s.block_size), 0u8] + bytes::bytes16(s.root_nid) + bytes::bytes64(
        s.inodes,
    ) + bytes::bytes64(s.epoch as int) + bytes::bytes32(0) + bytes::bytes32(s.blocks)
        + bytes::bytes32(s.metadata_block) + bytes::bytes32(s.xattr_block) + s.uuid + s.label
        + bytes::filled(0, 16 - s.label.len()) + bytes::bytes32(incompat) + bytes::bytes16(lz4)
        + bytes::filled(0, 22) + bytes::bytes32(s.age) + bytes::filled(0, 16) + if big {
        bytes::bytes16(14) + bytes::bytes16(0xffff) + bytes::bytes16(
            (s.cluster_size / s.block_size) as int,
        )
    } else {
        bytes::filled(0, 6)
    }
}

/// Superblocks that differ in their checksum differ in its four bytes alone.
#[verifier::rlimit(50)]
#[verifier::spinoff_prover]
pub proof fn lemma_superblock_bytes(s: Superblock, checksum: int)
    ensures
        ({
            let now = superblock_bytes(Superblock { checksum, ..s });
            &&& now.len() == superblock_bytes(s).len() >= 48
            &&& now.subrange(4, 8) == bytes::bytes32(checksum)
            &&& now.subrange(36, 40) == bytes::bytes32(s.blocks)
            &&& forall|i: int|
                0 <= i < now.len() && !(4 <= i < 8) ==> #[trigger] now[i] == superblock_bytes(s)[i]
        }),
{
    let now = superblock_bytes(Superblock { checksum, ..s });
    assert(now.subrange(4, 8) =~= bytes::bytes32(checksum));
    assert(now.subrange(36, 40) =~= bytes::bytes32(s.blocks));
}

/// The size of the area that the superblock stands in.
pub open spec fn initial_size(block_size: u32) -> int {
    let size = layout::rounded(1170, block_size as int);
    if size < 4096 {
        4096
    } else {
        size
    }
}

/// How much of the area behind the superblock's start the checksum covers.
pub open spec fn checksum_length(block_size: u32) -> int {
    if block_size > 1024 {
        block_size - 1024
    } else {
        block_size as int
    }
}

/// The area of the superblock, from its start on.
pub open spec fn superblock_area(s: Superblock, size: int) -> Seq<u8> {
    superblock_bytes(s) + bytes::filled(0, size - 1024 - superblock_bytes(s).len())
}

/// The checksum of a superblock, which is computed with a checksum of zero.
pub open spec fn checksum_of(s: Superblock, size: int) -> int {
    if s.stores_checksum {
        0xffff_ffff - crc32c_of(
            superblock_area(Superblock { checksum: 0, ..s }, size).take(
                checksum_length(s.block_size),
            ),
        )
    } else {
        0
    }
}

/// The superblock of an image, but for its checksum.
pub open spec fn superblock_of(
    entries: Seq<Entry>,
    options: BuildOptions,
    epoch: u64,
    build_time: u64,
    metadata_block: int,
    xattr_block: int,
    blocks: int,
) -> Superblock {
    Superblock {
        checksum: 0,
        stores_checksum: options.checksum,
        block_size: options.block_size,
        cluster_size: options.cluster_size,
        root_nid: entries[0].nid as int,
        inodes: inode_count(entries, entries.len() as int) as int,
        epoch,
        blocks,
        metadata_block,
        xattr_block,
        uuid: image_uuid(options.uuid, entries, epoch),
        label: vstd::utf8::encode_utf8(options.volume_label@),
        compressed: has_compressed(entries),
        age: build_age(build_time, epoch),
    }
}

/// The bytes of an image up to the end of the superblock's area.
pub open spec fn initial_area(s: Superblock) -> Seq<u8> {
    let size = initial_size(s.block_size);
    bytes::filled(0, 1024) + superblock_area(
        Superblock { checksum: checksum_of(s, size), ..s },
        size,
    )
}

fn count_inodes(entries: &Vec<Entry>) -> (count: u64)
    ensures
        count == inode_count(entries@, entries@.len() as int),
{
    let mut count: u64 = 0;
    let mut n: usize = 0;
    while n < entries.len()
        invariant
            n <= entries@.len(),
            count <= n,
            count == inode_count(entries@, n as int),
        decreases entries@.len() - n,
    {
        if entries[n].alias.is_none() {
            count += 1;
        }
        n += 1;
    }
    count
}

fn find_compressed(entries: &Vec<Entry>) -> (found: bool)
    ensures
        found == has_compressed(entries@),
{
    let mut n: usize = 0;
    while n < entries.len()
        invariant
            n <= entries@.len(),
            forall|i: int|
                0 <= i < n ==> !layout::is_compressed((#[trigger] entries@[i]).layout),
        decreases entries@.len() - n,
    {
        if layout::erofs_inode_is_data_compressed(entries[n].layout) {
            assert(layout::is_compressed(entries@[n as int].layout));
            return true;
        }
        n += 1;
    }
    false
}

/// The values of a superblock, as machine integers.
struct SuperblockFields {
    options_block_size: u32,
    cluster_size: u32,
    stores_checksum: bool,
    root_nid: u16,
    inodes: u64,
    epoch: u64,
    blocks: u32,
    metadata_block: u32,
    xattr_block: u32,
    uuid: Vec<u8>,
    label: Vec<u8>,
    compressed: bool,
    age: u32,
}

impl SuperblockFields {
    spec fn model(&self, checksum: int) -> Superblock {
        Superblock {
            checksum,
            stores_checksum: self.stores_checksum,
            block_size: self.options_block_size,
            cluster_size: self.cluster_size,
            root_nid: self.root_nid as int,
            inodes: self.inodes as int,
            epoch: self.epoch,
            blocks: self.blocks as int,
            metadata_block: self.metadata_block as int,
            xattr_block: self.xattr_block as int,
            uuid: self.uuid@,
            label: self.label@,
            compressed: self.compressed,
            age: self.age as int,
        }
    }

    spec fn well_formed(&self) -> bool {
        &&& self.uuid@.len() == 16
        &&& self.label@.len() <= 16
        &&& self.options_block_size == 512 || self.options_block_size == 1024
            || self.options_block_size == 2048 || self.options_block_size == 4096
        &&& self.cluster_size <= 0x10_0000
    }

    #[verifier::rlimit(40)]
    fn encode(&self, checksum: u32) -> (area: Vec<u8>)
        requires
            self.well_formed(),
        ensures
            area@ == superblock_area(self.model(checksum as int), 4096),
            area@.len() == 3072,
    {
        let big = self.compressed && self.cluster_size > self.options_block_size;
        let compat: u32 = if self.stores_checksum {
            3
        } else {
            EROFS_FEATURE_COMPAT_MTIME
        };
        let incompat: u32 = if big {
            3
        } else if self.compressed {
            1
        } else {
            0
        };
        let lz4: u16 = if big {
            1
        } else if self.compressed {
            0xffff
        } else {
            0
        };
        let bits: u8 = if self.options_block_size == 512 {
            9
        } else if self.options_block_size == 1024 {
            10
        } else if self.options_block_size == 2048 {
            11
        } else {
            12
        };
        let mut out: Vec<u8> = Vec::new();
        bytes::push_u32(&mut out, EROFS_SUPER_MAGIC_V1);
        bytes::push_u32(&mut out, checksum);
        bytes::push_u32(&mut out, compat);
        out.push(bits);
        out.push(0);
        bytes::push_u16(&mut out, self.root_nid);
        bytes::push_u64(&mut out, self.inodes);
        bytes::push_u64(&mut out, self.epoch);
        bytes::push_u32(&mut out, 0);
        bytes::push_u32(&mut out, self.blocks);
        bytes::push_u32(&mut out, self.metadata_block);
        bytes::push_u32(&mut out, self.xattr_block);
        bytes::push_all(&mut out, self.uuid.as_slice());
        bytes::push_all(&mut out, self.label.as_slice());
        bytes::push_filled(&mut out, 0, 16 - self.label.len());
        bytes::push_u32(&mut out, incompat);
        bytes::push_u16(&mut out, lz4);
        bytes::push_filled(&mut out, 0, 22);
        bytes::push_u32(&mut out, self.age);
        bytes::push_filled(&mut out, 0, 16);
        let mut settings: Vec<u8> = Vec::new();
        if big {
            assert(self.cluster_size / self.options_block_size <= 0xffff) by (nonlinear_arith)
                requires
                    self.cluster_size <= 0x10_0000,
                    self.options_block_size >= 512,
            ;
            bytes::push_u16(&mut settings, 14);
            bytes::push_u16(&mut settings, 0xffff);
            bytes::push_u16(&mut settings, (self.cluster_size / self.options_block_size) as u16);
        } else {
            bytes::push_filled(&mut settings, 0, 6);
        }
        bytes::push_all(&mut out, settings.as_slice());
        proof {
            let s = self.model(checksum as int);
            assert(out@ =~= superblock_bytes(s));
            assert(out@.len() == 134);
        }
        bytes::push_filled(&mut out, 0, 3072 - 134);
        out
    }
}

/// Why a superblock cannot be written: the root inode lies too far behind.
#[derive(Debug, Clone, Copy, PartialEq, Eq, Structural)]
pub struct RootTooFar;

/// Writes the area of the superblock.
pub fn write_superblock(
    entries: &Vec<Entry>,
    options: &BuildOptions,
    epoch: u64,
    build_time: u64,
    metadata_block: u32,
    xattr_block: u32,
    blocks: u32,
) -> (area: Result<Vec<u8>, RootTooFar>)
    requires
        entries@.len() > 0,
        crate::erofs::build_options::invalid(options@) is None,
    ensures
        match area {
            Ok(data) => {
                &&& entries@[0].nid <= 0xffff
                &&& data@ == initial_area(
                    superblock_of(
                        entries@,
                        *options,
                        epoch,
                        build_time,
                        metadata_block as int,
                        xattr_block as int,
                        blocks as int,
                    ),
                )
                &&& data@.len() == 4096
                &&& has_digest(options.uuid, entries@, epoch)
            },
            Err(_) => entries@[0].nid > 0xffff,
        },
{
    if entries[0].nid > 0xffff {
        return Err(RootTooFar);
    }
    let label_bytes = options.volume_label.as_str().as_bytes();
    let label = bytes::copy_range(label_bytes, 0, label_bytes.len());
    assert(label@ =~= label_bytes@);
    let age: u32 = if build_time < epoch {
        0
    } else if build_time - epoch > 0xffff_ffff {
        0xffff_ffff
    } else {
        (build_time - epoch) as u32
    };
    let fields = SuperblockFields {
        options_block_size: options.block_size,
        cluster_size: options.cluster_size,
        stores_checksum: options.checksum,
        root_nid: entries[0].nid as u16,
        inodes: count_inodes(entries),
        epoch,
        blocks,
        metadata_block,
        xattr_block,
        uuid: find_uuid(&options.uuid, entries, epoch),
        label,
        compressed: find_compressed(entries),
        age,
    };
    let ghost s = superblock_of(
        entries@,
        *options,
        epoch,
        build_time,
        metadata_block as int,
        xattr_block as int,
        blocks as int,
    );
    assert(fields.model(0) == s);
    assert(initial_size(options.block_size) == 4096) by {
        assert(layout::rounded(1170, 512) == 1536);
        assert(layout::rounded(1170, 1024) == 2048);
        assert(layout::rounded(1170, 2048) == 2048);
        assert(layout::rounded(1170, 4096) == 4096);
    }
    let mut checksum: u32 = 0;
    if options.checksum {
        let plain = fields.encode(0);
        let length: usize = if options.block_size > 1024 {
            (options.block_size - 1024) as usize
        } else {
            options.block_size as usize
        };
        assert(plain@.subrange(0, length as int) =~= plain@.take(length as int));
        checksum = 0xffff_ffff - crc32c(&plain.as_slice()[0..length]);
    }
    assert(checksum == checksum_of(s, 4096));
    let area = fields.encode(checksum);
    assert(fields.model(checksum as int) == (Superblock { checksum: checksum as int, ..s }));
    let mut data: Vec<u8> = Vec::new();
    bytes::push_filled(&mut data, 0, 1024);
    bytes::push_all(&mut data, area.as_slice());
    assert(data@ =~= initial_area(s));
    Ok(data)
}

} // verus!
