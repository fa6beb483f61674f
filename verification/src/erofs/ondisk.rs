//! What stands at which byte of an image.

use vstd::arithmetic::power2::{lemma2_to64, pow2};
use vstd::prelude::*;

use crate::bytes;
use crate::erofs::build_options;
use crate::erofs::build_options::BuildOptions;
use crate::erofs::builder;
use crate::erofs::compression;
use crate::erofs::image;
use crate::erofs::image::{BuildReport, Steps};
use crate::erofs::indexes;
use crate::erofs::inode;
use crate::erofs::inode::Superblock;
use crate::erofs::layout;
use crate::erofs::prepare;
use crate::erofs::tree::Entry;
use crate::erofs::xattrs;

verus! {

// ---------------------------------------------------------------------------
// Parts of sequences
// ---------------------------------------------------------------------------

/// A number that stands in a sequence reads back.
pub(crate) proof fn lemma_le16_at(data: Seq<u8>, at: int, v: int)
    requires
        0 <= at,
        at + 2 <= data.len(),
        0 <= v < 0x1_0000,
        data.subrange(at, at + 2) == bytes::bytes16(v),
    ensures
        bytes::le16(data, at) == v,
{
    bytes::lemma_bytes16(v);
    assert forall|i: int| 0 <= i < 2 implies data[at + i] == bytes::bytes16(v)[i] by {
        assert(data.subrange(at, at + 2)[i] == data[at + i]);
    }
}

pub(crate) proof fn lemma_le32_at(data: Seq<u8>, at: int, v: int)
    requires
        0 <= at,
        at + 4 <= data.len(),
        0 <= v < 0x1_0000_0000,
        data.subrange(at, at + 4) == bytes::bytes32(v),
    ensures
        bytes::le32(data, at) == v,
{
    bytes::lemma_bytes32(v);
    assert forall|i: int| 0 <= i < 4 implies data[at + i] == bytes::bytes32(v)[i] by {
        assert(data.subrange(at, at + 4)[i] == data[at + i]);
    }
}

pub(crate) proof fn lemma_le64_at(data: Seq<u8>, at: int, v: int)
    requires
        0 <= at,
        at + 8 <= data.len(),
        0 <= v < 0x1_0000_0000_0000_0000,
        data.subrange(at, at + 8) == bytes::bytes64(v),
    ensures
        bytes::le64(data, at) == v,
{
    bytes::lemma_bytes64(v);
    assert forall|i: int| 0 <= i < 8 implies data[at + i] == bytes::bytes64(v)[i] by {
        assert(data.subrange(at, at + 8)[i] == data[at + i]);
    }
}

// ---------------------------------------------------------------------------
// Superblocks
// ---------------------------------------------------------------------------

/// The front of a superblock, up to its identifier.
#[verifier::rlimit(60)]
#[verifier::spinoff_prover]
proof fn lemma_superblock_front(s: Superblock)
    requires
        s.uuid.len() == 16,
        s.label.len() <= 16,
        0 <= s.checksum <= 0xffff_ffff,
        0 <= s.root_nid <= 0xffff,
        0 <= s.inodes < 0x1_0000_0000_0000_0000,
        0 <= s.blocks <= 0xffff_ffff,
        0 <= s.metadata_block <= 0xffff_ffff,
        0 <= s.xattr_block <= 0xffff_ffff,
    ensures
        ({
            let b = inode::superblock_bytes(s);
            &&& b.len() == 134
            &&& bytes::le32(b, 0) == 0xe0f5_e1e2
            &&& bytes::le32(b, 8) == if s.stores_checksum {
                3int
            } else {
                2
            }
            &&& b[12] == inode::block_bits(s.block_size)
            &&& b[13] == 0
            &&& bytes::le16(b, 14) == s.root_nid
            &&& bytes::le64(b, 16) == s.inodes
            &&& bytes::le64(b, 24) == s.epoch
            &&& bytes::le32(b, 32) == 0
        }),
{
    let b = inode::superblock_bytes(s);
    let compat: int = if s.stores_checksum {
        3
    } else {
        2
    };
    assert(b.len() == 134);
    assert(b.subrange(0, 4) =~= bytes::bytes32(0xe0f5_e1e2));
    assert(b.subrange(8, 12) =~= bytes::bytes32(compat));
    assert(b.subrange(14, 16) =~= bytes::bytes16(s.root_nid));
    assert(b.subrange(16, 24) =~= bytes::bytes64(s.inodes));
    assert(b.subrange(24, 32) =~= bytes::bytes64(s.epoch as int));
    assert(b.subrange(32, 36) =~= bytes::bytes32(0));
    lemma_le32_at(b, 0, 0xe0f5_e1e2);
    lemma_le32_at(b, 8, compat);
    lemma_le16_at(b, 14, s.root_nid);
    lemma_le64_at(b, 16, s.inodes);
    lemma_le64_at(b, 24, s.epoch as int);
    lemma_le32_at(b, 32, 0);
}

/// The middle of a superblock, up to its label.
#[verifier::rlimit(60)]
#[verifier::spinoff_prover]
proof fn lemma_superblock_middle(s: Superblock)
    requires
        s.uuid.len() == 16,
        s.label.len() <= 16,
        0 <= s.blocks <= 0xffff_ffff,
        0 <= s.metadata_block <= 0xffff_ffff,
        0 <= s.xattr_block <= 0xffff_ffff,
    ensures
        ({
            let b = inode::superblock_bytes(s);
            &&& bytes::le32(b, 36) == s.blocks
            &&& bytes::le32(b, 40) == s.metadata_block
            &&& bytes::le32(b, 44) == s.xattr_block
            &&& b.subrange(48, 64) == s.uuid
            &&& b.subrange(64, 64 + s.label.len() as int) == s.label
            &&& forall|k: int| 64 + s.label.len() <= k < 80 ==> #[trigger] b[k] == 0
        }),
{
    let b = inode::superblock_bytes(s);
    assert(b.len() == 134);
    assert(b.subrange(36, 40) =~= bytes::bytes32(s.blocks));
    assert(b.subrange(40, 44) =~= bytes::bytes32(s.metadata_block));
    assert(b.subrange(44, 48) =~= bytes::bytes32(s.xattr_block));
    assert(b.subrange(48, 64) =~= s.uuid);
    assert(b.subrange(64, 64 + s.label.len() as int) =~= s.label);
    lemma_le32_at(b, 36, s.blocks);
    lemma_le32_at(b, 40, s.metadata_block);
    lemma_le32_at(b, 44, s.xattr_block);
}

/// The end of a superblock: what it needs of a reader, and its age.
#[verifier::rlimit(60)]
#[verifier::spinoff_prover]
proof fn lemma_superblock_end(s: Superblock)
    requires
        s.uuid.len() == 16,
        s.label.len() <= 16,
        0 <= s.age <= 0xffff_ffff,
        s.block_size > 0,
        s.cluster_size / s.block_size <= 0xffff,
    ensures
        ({
            let b = inode::superblock_bytes(s);
            let big = s.compressed && s.cluster_size > s.block_size;
            &&& bytes::le32(b, 80) == (if s.compressed {
                1int
            } else {
                0
            }) + (if big {
                2int
            } else {
                0
            })
            &&& bytes::le16(b, 84) == if big {
                1int
            } else if s.compressed {
                65_535
            } else {
                0
            }
            &&& forall|k: int| 86 <= k < 108 || 112 <= k < 128 ==> #[trigger] b[k] == 0
            &&& bytes::le32(b, 108) == s.age
            &&& bytes::le16(b, 128) == if big {
                14int
            } else {
                0
            }
            &&& bytes::le16(b, 130) == if big {
                65_535int
            } else {
                0
            }
            &&& bytes::le16(b, 132) == if big {
                s.cluster_size as int / s.block_size as int
            } else {
                0
            }
        }),
{
    let b = inode::superblock_bytes(s);
    let big = s.compressed && s.cluster_size > s.block_size;
    let incompat = (if s.compressed {
        1int
    } else {
        0
    }) + (if big {
        2int
    } else {
        0
    });
    let lz4 = if big {
        1int
    } else if s.compressed {
        65_535
    } else {
        0
    };
    let unit = s.cluster_size as int / s.block_size as int;
    assert(b.len() == 134);
    assert(b.subrange(80, 84) =~= bytes::bytes32(incompat));
    assert(b.subrange(84, 86) =~= bytes::bytes16(lz4));
    assert(b.subrange(108, 112) =~= bytes::bytes32(s.age));
    lemma_le32_at(b, 80, incompat);
    lemma_le16_at(b, 84, lz4);
    lemma_le32_at(b, 108, s.age);
    if big {
        assert(b.subrange(128, 130) =~= bytes::bytes16(14));
        assert(b.subrange(130, 132) =~= bytes::bytes16(65_535));
        assert(b.subrange(132, 134) =~= bytes::bytes16(unit));
        lemma_le16_at(b, 128, 14);
        lemma_le16_at(b, 130, 65_535);
        lemma_le16_at(b, 132, unit);
    } else {
        assert(b.subrange(128, 130) =~= bytes::bytes16(0));
        assert(b.subrange(130, 132) =~= bytes::bytes16(0));
        assert(b.subrange(132, 134) =~= bytes::bytes16(0));
        lemma_le16_at(b, 128, 0);
        lemma_le16_at(b, 130, 0);
        lemma_le16_at(b, 132, 0);
    }
}

/// The superblock stands at byte 1024 of an image, after zeros.
#[verifier::rlimit(60)]
#[verifier::spinoff_prover]
proof fn lemma_superblock_place(img: Seq<u8>, s: Superblock)
    requires
        compression::is_block_size(s.block_size as int),
        s.uuid.len() == 16,
        s.label.len() <= 16,
        img.len() >= 4096,
        img.take(4096) == inode::initial_area(s),
    ensures
        ({
            let checksum = inode::checksum_of(s, 4096);
            let b = inode::superblock_bytes(Superblock { checksum, ..s });
            &&& b.len() == 134
            &&& forall|k: int| 0 <= k < 134 ==> img[1024 + k] == #[trigger] b[k]
            &&& forall|k: int| 0 <= k < 1024 || 1158 <= k < 4096 ==> #[trigger] img[k] == 0
        }),
{
    let checksum = inode::checksum_of(s, 4096);
    let with = Superblock { checksum, ..s };
    let b = inode::superblock_bytes(with);
    assert(b.len() == 134);
    assert(inode::initial_size(s.block_size) == 4096);
    let area = inode::superblock_area(with, 4096);
    let head = img.take(4096);
    let zeros = bytes::filled(0, 1024);
    assert(zeros.len() == 1024);
    assert(head == zeros + area);
    assert forall|k: int| 0 <= k < 134 implies img[1024 + k] == #[trigger] b[k] by {
        assert(img[1024 + k] == head[1024 + k]);
        assert(area[k] == b[k]);
    }
    assert forall|k: int| 0 <= k < 1024 || 1158 <= k < 4096 implies #[trigger] img[k] == 0 by {
        assert(img[k] == head[k]);
        if k >= 1158 {
            assert(head[k] == area[k - 1024]);
        }
    }
}

/// How many of the files have an inode of their own.
pub open spec fn own_inodes(entries: Seq<Entry>) -> Seq<Entry> {
    entries.filter(|e: Entry| e.alias is None)
}

proof fn lemma_inode_count(entries: Seq<Entry>, n: int)
    requires
        0 <= n <= entries.len(),
    ensures
        inode::inode_count(entries, n) == own_inodes(entries.take(n)).len(),
        inode::inode_count(entries, n) <= n,
    decreases n,
{
    let p = |e: Entry| e.alias is None;
    reveal(Seq::filter);
    if n > 0 {
        lemma_inode_count(entries, n - 1);
        let whole = entries.take(n);
        assert(whole.drop_last() =~= entries.take(n - 1));
        assert(whole.last() == entries[n - 1]);
    } else {
        assert(entries.take(0) =~= Seq::<Entry>::empty());
    }
}

/// True for a file whose data is compressed.
pub open spec fn has_compressed_layout(e: Entry) -> bool {
    e.layout == 1 || e.layout == 3
}

/// What the superblock of an image states, each number where it stands: the
/// magic number, that times are stored and whether a checksum is, the size of a
/// block as a power of two, the inode of the root directory, how many inodes
/// there are, when times start, how many blocks there are, where the shared
/// attributes stand, the identifier, the label, and the time of the build.
pub open spec fn states_image(
    img: Seq<u8>,
    options: BuildOptions,
    epoch: u64,
    current_time: u64,
    shared: Seq<u8>,
    now: Seq<Entry>,
) -> bool {
    let block_size = options.block_size as int;
    let label = vstd::utf8::encode_utf8(options.volume_label@);
    let built_at = match options.timestamp {
        Some(time) => time as int,
        None => current_time as int,
    };
    &&& bytes::le32(img, 1024) == 0xe0f5_e1e2
    &&& bytes::le32(img, 1032) == if options.checksum {
        3int
    } else {
        2
    }
    &&& !options.checksum ==> bytes::le32(img, 1028) == 0
    &&& pow2(img[1036] as nat) == block_size
    &&& img[1037] == 0
    &&& bytes::le16(img, 1038) == now[0].nid
    &&& bytes::le64(img, 1040) == own_inodes(now).len()
    &&& bytes::le64(img, 1048) == epoch
    &&& bytes::le32(img, 1056) == 0
    &&& bytes::le32(img, 1060) * block_size == img.len()
    &&& bytes::le32(img, 1064) == 0
    &&& shared.len() == 0 ==> bytes::le32(img, 1068) == 0
    &&& shared.len() > 0 ==> bytes::stands_at(img, bytes::le32(img, 1068) * block_size, shared)
    &&& options.uuid matches Some(uuid) ==> img.subrange(1072, 1088) == uuid@
    &&& options.uuid is None ==> {
        let digest = inode::sha256_of(inode::identity(now, epoch, now.len() as int));
        &&& img[1078] == 64 + digest[6] % 16
        &&& img[1080] == 128 + digest[8] % 64
        &&& forall|k: int|
            0 <= k < 16 && k != 6 && k != 8 ==> #[trigger] img.subrange(1072, 1088)[k] == digest[k]
    }
    &&& img.subrange(1088, 1088 + label.len() as int) == label
    &&& forall|k: int| 1088 + label.len() <= k < 1104 ==> #[trigger] img[k] == 0
    &&& epoch <= built_at <= epoch + 0xffff_ffff ==> epoch + bytes::le32(img, 1132) == built_at
    &&& built_at < epoch ==> bytes::le32(img, 1132) == 0
    &&& built_at > epoch + 0xffff_ffff ==> bytes::le32(img, 1132) == 0xffff_ffff
}

/// What the superblock of an image says of compression. Without compressed files
/// there is nothing to say. With them, a reader has to know that clusters are
/// padded at their front, which is bit 0 of what a reader needs, and of clusters
/// of several blocks, which is bit 1; in that case the settings of the
/// compressor follow, with the number of blocks of a cluster.
pub open spec fn states_compression(img: Seq<u8>, options: BuildOptions, now: Seq<Entry>) -> bool {
    let compressed = exists|i: int|
        0 <= i < now.len() && has_compressed_layout(#[trigger] now[i]);
    let big = options.cluster_size > options.block_size;
    let needs = bytes::le32(img, 1104);
    &&& needs < 4
    &&& (needs % 2 == 1) == compressed
    &&& (needs / 2 == 1) == (compressed && big)
    &&& !compressed ==> bytes::le16(img, 1108) == 0
    &&& compressed && !big ==> bytes::le16(img, 1108) == 65_535
    &&& compressed && big ==> {
        &&& bytes::le16(img, 1108) == 1
        &&& bytes::le16(img, 1152) == 14
        &&& bytes::le16(img, 1154) == 65_535
        &&& bytes::le16(img, 1156) * options.block_size == options.cluster_size
    }
    &&& !(compressed && big) ==> bytes::le16(img, 1152) == 0 && bytes::le16(img, 1154) == 0
        && bytes::le16(img, 1156) == 0
}

proof fn lemma_block_bits(block_size: u32)
    requires
        compression::is_block_size(block_size as int),
    ensures
        pow2(inode::block_bits(block_size) as nat) == block_size,
{
    lemma2_to64();
}

/// An identifier has sixteen bytes. One that is derived is marked as such.
proof fn lemma_uuid(chosen: Option<[u8; 16]>, entries: Seq<Entry>, epoch: u64)
    requires
        inode::has_digest(chosen, entries, epoch),
    ensures
        inode::image_uuid(chosen, entries, epoch).len() == 16,
        chosen matches Some(uuid) ==> inode::image_uuid(chosen, entries, epoch) == uuid@,
        chosen is None ==> ({
            let digest = inode::sha256_of(
                inode::identity(entries, epoch, entries.len() as int),
            );
            let uuid = inode::image_uuid(chosen, entries, epoch);
            &&& uuid[6] / 16 == 4 && uuid[6] % 16 == digest[6] % 16
            &&& uuid[8] / 64 == 2 && uuid[8] % 64 == digest[8] % 64
            &&& forall|k: int| 0 <= k < 16 && k != 6 && k != 8 ==> #[trigger] uuid[k] == digest[k]
        }),
{
    if chosen is None {
        let digest = inode::sha256_of(inode::identity(entries, epoch, entries.len() as int));
        let uuid = inode::derived_uuid(digest);
        let six = (digest[6] % 16 + 0x40) as u8;
        let eight = (digest[8] % 64 + 0x80) as u8;
        assert(uuid[6] == six && uuid[8] == eight);
    }
}

proof fn lemma_shared_place(
    img: Seq<u8>,
    head: Seq<u8>,
    start: int,
    at: int,
    block_size: int,
    shared: Seq<u8>,
)
    requires
        0 < block_size,
        0 <= start <= img.len(),
        head == img.take(start),
        at % block_size == 0,
        bytes::stands_at(head, at, shared),
    ensures
        bytes::stands_at(img, at / block_size * block_size, shared),
        0 <= at / block_size <= img.len() as int / block_size,
{
    vstd::arithmetic::div_mod::lemma_fundamental_div_mod(at, block_size);
    vstd::arithmetic::mul::lemma_mul_is_commutative(at / block_size, block_size);
    vstd::arithmetic::div_mod::lemma_div_is_ordered(at, img.len() as int, block_size);
    vstd::arithmetic::div_mod::lemma_div_pos_is_pos(at, block_size);
    assert(img.subrange(at, at + shared.len()) =~= head.subrange(at, at + shared.len()));
}

/// Where one sequence holds another, numbers read the same.
proof fn lemma_same_numbers(img: Seq<u8>, b: Seq<u8>, at: int)
    requires
        b.len() == 134,
        forall|k: int| 0 <= k < 134 ==> img[1024 + k] == #[trigger] b[k],
        0 <= at,
    ensures
        at + 2 <= 134 ==> bytes::le16(img, 1024 + at) == bytes::le16(b, at),
        at + 4 <= 134 ==> bytes::le32(img, 1024 + at) == bytes::le32(b, at),
        at + 8 <= 134 ==> bytes::le64(img, 1024 + at) == bytes::le64(b, at),
{
    if at + 2 <= 134 {
        assert(img[1024 + at] == b[at]);
        assert(img[1024 + (at + 1)] == b[at + 1]);
    }
    if at + 4 <= 134 {
        assert(img[1024 + (at + 2)] == b[at + 2]);
        assert(img[1024 + (at + 3)] == b[at + 3]);
    }
    if at + 8 <= 134 {
        assert(img[1024 + (at + 4)] == b[at + 4]);
        assert(img[1024 + (at + 5)] == b[at + 5]);
        assert(img[1024 + (at + 6)] == b[at + 6]);
        assert(img[1024 + (at + 7)] == b[at + 7]);
    }
}

/// What a superblock says of an image, read from the image.
#[verifier::rlimit(80)]
#[verifier::spinoff_prover]
proof fn lemma_reads_image(img: Seq<u8>, s: Superblock)
    requires
        compression::is_block_size(s.block_size as int),
        s.uuid.len() == 16,
        s.label.len() <= 16,
        0 <= s.checksum <= 0xffff_ffff,
        0 <= s.root_nid <= 0xffff,
        0 <= s.inodes < 0x1_0000_0000_0000_0000,
        0 <= s.blocks <= 0xffff_ffff,
        0 <= s.metadata_block <= 0xffff_ffff,
        0 <= s.xattr_block <= 0xffff_ffff,
        forall|k: int|
            0 <= k < 134 ==> img[1024 + k] == #[trigger] inode::superblock_bytes(s)[k],
        img.len() >= 4096,
    ensures
        bytes::le32(img, 1024) == 0xe0f5_e1e2,
        bytes::le32(img, 1028) == s.checksum,
        bytes::le32(img, 1032) == if s.stores_checksum {
            3int
        } else {
            2
        },
        pow2(img[1036] as nat) == s.block_size,
        img[1037] == 0,
        bytes::le16(img, 1038) == s.root_nid,
        bytes::le64(img, 1040) == s.inodes,
        bytes::le64(img, 1048) == s.epoch,
        bytes::le32(img, 1056) == 0,
        bytes::le32(img, 1060) == s.blocks,
        bytes::le32(img, 1064) == s.metadata_block,
        bytes::le32(img, 1068) == s.xattr_block,
        img.subrange(1072, 1088) == s.uuid,
        img.subrange(1088, 1088 + s.label.len() as int) == s.label,
        forall|k: int| 1088 + s.label.len() <= k < 1104 ==> #[trigger] img[k] == 0,
{
    let b = inode::superblock_bytes(s);
    lemma_superblock_front(s);
    lemma_superblock_middle(s);
    lemma_block_bits(s.block_size);
    inode::lemma_superblock_bytes(s, s.checksum);
    lemma_le32_at(b, 4, s.checksum);
    lemma_same_numbers(img, b, 0);
    lemma_same_numbers(img, b, 4);
    lemma_same_numbers(img, b, 8);
    lemma_same_numbers(img, b, 14);
    lemma_same_numbers(img, b, 16);
    lemma_same_numbers(img, b, 24);
    lemma_same_numbers(img, b, 32);
    lemma_same_numbers(img, b, 36);
    lemma_same_numbers(img, b, 40);
    lemma_same_numbers(img, b, 44);
    assert(img[1024 + 12int] == b[12]);
    assert(img[1024 + 13int] == b[13]);
    let n = s.label.len() as int;
    assert(img.subrange(1072, 1088) =~= s.uuid) by {
        assert forall|k: int| 0 <= k < 16 implies img.subrange(1072, 1088)[k] == s.uuid[k] by {
            assert(img[1024 + (48 + k)] == b[48 + k]);
            assert(b.subrange(48, 64)[k] == b[48 + k]);
        }
    }
    assert(img.subrange(1088, 1088 + n) =~= s.label) by {
        assert forall|k: int| 0 <= k < n implies img.subrange(1088, 1088 + n)[k] == s.label[k] by {
            assert(img[1024 + (64 + k)] == b[64 + k]);
            assert(b.subrange(64, 64 + n)[k] == b[64 + k]);
        }
    }
    assert forall|k: int| 1088 + n <= k < 1104 implies #[trigger] img[k] == 0 by {
        assert(img[1024 + (k - 1024)] == b[k - 1024]);
    }
}

/// What a superblock says of compression, read from the image.
#[verifier::rlimit(60)]
#[verifier::spinoff_prover]
proof fn lemma_reads_compression(img: Seq<u8>, s: Superblock)
    requires
        compression::is_block_size(s.block_size as int),
        s.cluster_size <= 0x10_0000,
        s.uuid.len() == 16,
        s.label.len() <= 16,
        0 <= s.age <= 0xffff_ffff,
        inode::superblock_bytes(s).len() == 134,
        forall|k: int|
            0 <= k < 134 ==> img[1024 + k] == #[trigger] inode::superblock_bytes(s)[k],
    ensures
        ({
            let big = s.compressed && s.cluster_size > s.block_size;
            &&& bytes::le32(img, 1104) == (if s.compressed {
                1int
            } else {
                0
            }) + (if big {
                2int
            } else {
                0
            })
            &&& bytes::le16(img, 1108) == if big {
                1int
            } else if s.compressed {
                65_535
            } else {
                0
            }
            &&& bytes::le32(img, 1132) == s.age
            &&& bytes::le16(img, 1152) == if big {
                14int
            } else {
                0
            }
            &&& bytes::le16(img, 1154) == if big {
                65_535int
            } else {
                0
            }
            &&& bytes::le16(img, 1156) == if big {
                s.cluster_size as int / s.block_size as int
            } else {
                0
            }
        }),
{
    let b = inode::superblock_bytes(s);
    assert(s.cluster_size / s.block_size <= 0xffff) by (nonlinear_arith)
        requires
            s.cluster_size <= 0x10_0000,
            s.block_size >= 512,
    ;
    lemma_superblock_end(s);
    lemma_same_numbers(img, b, 80);
    lemma_same_numbers(img, b, 84);
    lemma_same_numbers(img, b, 108);
    lemma_same_numbers(img, b, 128);
    lemma_same_numbers(img, b, 130);
    lemma_same_numbers(img, b, 132);
}

/// What a superblock says, read from the image.
#[verifier::rlimit(60)]
#[verifier::spinoff_prover]
proof fn lemma_superblock_reads(
    img: Seq<u8>,
    options: BuildOptions,
    epoch: u64,
    current_time: u64,
    shared: Seq<u8>,
    now: Seq<Entry>,
    at: int,
    s: Superblock,
    checksum: int,
)
    requires
        build_options::invalid(options@) is None,
        s == image::final_superblock(
            now,
            options,
            epoch,
            image::time_of(options, current_time),
            shared.len() as int,
            at,
            img.len() as int,
        ),
        checksum == inode::checksum_of(s, 4096),
        ({
            let b = inode::superblock_bytes(Superblock { checksum, ..s });
            &&& b.len() == 134
            &&& forall|k: int| 0 <= k < 134 ==> img[1024 + k] == #[trigger] b[k]
        }),
        inode::has_digest(options.uuid, now, epoch),
        img.len() >= 4096,
        img.len() as int % options.block_size as int == 0,
        img.len() as int / options.block_size as int <= u32::MAX,
        now[0].nid <= 0xffff,
        now.len() <= u64::MAX,
        inode::inode_count(now, now.len() as int) == own_inodes(now).len() <= now.len(),
        0 <= at / options.block_size as int <= img.len() as int / options.block_size as int,
        bytes::stands_at(img, at / options.block_size as int * options.block_size, shared),
    ensures
        states_image(img, options, epoch, current_time, shared, now),
        states_compression(img, options, now),
{
    let block_size = options.block_size as int;
    let with = Superblock { checksum, ..s };
    vstd::arithmetic::div_mod::lemma_fundamental_div_mod(img.len() as int, block_size);
    vstd::arithmetic::mul::lemma_mul_is_commutative(img.len() as int / block_size, block_size);
    vstd::arithmetic::div_mod::lemma_fundamental_div_mod(
        options.cluster_size as int,
        block_size,
    );
    vstd::arithmetic::mul::lemma_mul_is_commutative(
        options.cluster_size as int / block_size,
        block_size,
    );
    lemma_uuid(options.uuid, now, epoch);
    lemma_reads_image(img, with);
    lemma_reads_compression(img, with);
    if options.uuid is None {
        let uuid = inode::image_uuid(options.uuid, now, epoch);
        assert(img.subrange(1072, 1088)[6] == img[1078]);
        assert(img.subrange(1072, 1088)[8] == img[1080]);
    }
    assert(s.compressed == exists|i: int|
        0 <= i < now.len() && has_compressed_layout(#[trigger] now[i])) by {
        if s.compressed {
            let i = choose|i: int|
                0 <= i < now.len() && layout::is_compressed((#[trigger] now[i]).layout);
            assert(has_compressed_layout(now[i]));
        }
        if exists|i: int| 0 <= i < now.len() && has_compressed_layout(#[trigger] now[i]) {
            let i = choose|i: int| 0 <= i < now.len() && has_compressed_layout(#[trigger] now[i]);
            assert(layout::is_compressed(now[i].layout));
        }
    }
}

/// The superblock of every image states what the image is, and where it was
/// built with compressed files, what they need.
#[verifier::rlimit(80)]
#[verifier::spinoff_prover]
pub proof fn law_superblocks_state_their_image<
    F: Fn(&[u8], usize) -> Option<(usize, Vec<u8>)>,
>(
    lz4: F,
    before: Seq<Entry>,
    contents: Seq<Vec<u8>>,
    options: BuildOptions,
    epoch: u64,
    current_time: u64,
    shared: Seq<u8>,
    now: Seq<Entry>,
    img: Seq<u8>,
    report: BuildReport,
)
    requires
        build_options::invalid(options@) is None,
        contents.len() == before.len(),
        image::is_buildable(before, options.block_size as int, epoch),
        image::builds_to(
            lz4,
            before,
            contents,
            options,
            epoch,
            current_time,
            shared,
            now,
            img,
            report,
        ),
    ensures
        states_image(img, options, epoch, current_time, shared, now),
        states_compression(img, options, now),
{
    let steps = choose|steps: Steps|
        #[trigger] image::is_image(
            lz4,
            before,
            contents,
            options,
            epoch,
            current_time,
            shared,
            steps,
            now,
            img,
        ) && image::reports(steps.staged, before.len() as int, report) && report.image_bytes
            == img.len();
    let b = options.block_size as int;
    let l = shared.len() as int;
    let at = image::shared_start(steps.staged, b);
    let s = image::final_superblock(
        now,
        options,
        epoch,
        image::time_of(options, current_time),
        l,
        at,
        img.len() as int,
    );
    let start = image::data_start(steps.staged, b, l);
    let head = img.take(start);
    assert(image::is_head(head, inode::initial_area(s), now, epoch, shared, at, start));
    image::lemma_staged(lz4, before, contents, options, steps.staged, steps.pieces, epoch);
    image::lemma_area(steps.staged, b, epoch);
    image::lemma_areas(steps.staged, b, l);
    assert(img.take(4096) =~= head.take(4096));
    lemma_uuid(options.uuid, now, epoch);
    lemma_superblock_place(img, s);
    lemma_inode_count(now, now.len() as int);
    assert(now.take(now.len() as int) =~= now);
    lemma_shared_place(img, head, start, at, b, shared);
    lemma_superblock_reads(
        img,
        options,
        epoch,
        current_time,
        shared,
        now,
        at,
        s,
        inode::checksum_of(s, 4096),
    );
}

// ---------------------------------------------------------------------------
// Inodes
// ---------------------------------------------------------------------------

/// What an inode of an image states of a file, each number where it stands. The
/// lowest bit of the first number tells the long form, of 64 bytes, from the
/// short one, of 32; the bits above it tell how the data is laid out. Attributes
/// stand behind the inode.
pub open spec fn states_file(img: Seq<u8>, at: int, e: Entry, number: int, epoch: u64) -> bool {
    &&& states_form(img, at, e, number)
    &&& e.inode_size == 64 ==> states_long(img, at, e)
    &&& e.inode_size == 32 ==> states_short(img, at, e, epoch)
    &&& img.subrange(at + e.inode_size, at + e.inode_size + e.xattrs@.len()) == e.xattrs@
}

/// What both forms of an inode state.
pub open spec fn states_form(img: Seq<u8>, at: int, e: Entry, number: int) -> bool {
    &&& bytes::le16(img, at) / 2 == e.layout
    &&& bytes::le16(img, at) % 2 == 1 <==> e.inode_size == 64
    &&& e.inode_size == 64 || e.inode_size == 32
    &&& e.xattrs@.len() == 0 ==> bytes::le16(img, at + 2) == 0
    &&& e.xattrs@.len() > 0 ==> 4 * bytes::le16(img, at + 2) + 8 == e.xattrs@.len()
    &&& bytes::le16(img, at + 4) == e.metadata.mode
    &&& bytes::le32(img, at + 16) == e.data_union
    &&& bytes::le32(img, at + 20) == number
}

/// What a long inode states.
pub open spec fn states_long(img: Seq<u8>, at: int, e: Entry) -> bool {
    &&& bytes::le16(img, at + 6) == 0
    &&& bytes::le64(img, at + 8) == e.size
    &&& bytes::le32(img, at + 24) == e.metadata.uid
    &&& bytes::le32(img, at + 28) == e.metadata.gid
    &&& bytes::le64(img, at + 32) == e.metadata.mtime
    &&& bytes::le32(img, at + 40) == e.metadata.mtime_nsec
    &&& bytes::le32(img, at + 44) == e.links
    &&& bytes::le64(img, at + 48) == 0
    &&& bytes::le64(img, at + 56) == 0
}

/// What a short inode states, which counts the time from the epoch of the image
/// on.
pub open spec fn states_short(img: Seq<u8>, at: int, e: Entry, epoch: u64) -> bool {
    &&& bytes::le16(img, at + 6) == e.links
    &&& bytes::le32(img, at + 8) == e.size
    &&& epoch + bytes::le32(img, at + 12) == e.metadata.mtime
    &&& e.metadata.mtime_nsec == 0
    &&& bytes::le16(img, at + 24) == e.metadata.uid
    &&& bytes::le16(img, at + 26) == e.metadata.gid
    &&& bytes::le32(img, at + 28) == 0
}

#[verifier::rlimit(60)]
#[verifier::spinoff_prover]
proof fn lemma_inode_long(e: Entry, number: int, epoch: u64)
    requires
        inode::is_inode(e, epoch),
        e.inode_size == 64,
        0 <= number <= 0xffff_ffff,
    ensures
        ({
            let b = inode::inode_bytes(e, number, epoch);
            &&& b.len() == 64
            &&& bytes::le16(b, 4) == e.metadata.mode
            &&& bytes::le16(b, 6) == 0
            &&& bytes::le64(b, 8) == e.size
            &&& bytes::le32(b, 20) == number
            &&& bytes::le32(b, 24) == e.metadata.uid
            &&& bytes::le32(b, 28) == e.metadata.gid
            &&& bytes::le64(b, 32) == e.metadata.mtime
            &&& bytes::le32(b, 40) == e.metadata.mtime_nsec
            &&& bytes::le32(b, 44) == e.links
            &&& bytes::le64(b, 48) == 0
            &&& bytes::le64(b, 56) == 0
        }),
{
    let b = inode::inode_bytes(e, number, epoch);
    inode::lemma_body_len(e, number, epoch);
    assert(b.subrange(4, 6) =~= bytes::bytes16(e.metadata.mode as int));
    assert(b.subrange(6, 8) =~= bytes::bytes16(0));
    assert(b.subrange(8, 16) =~= bytes::bytes64(e.size as int));
    assert(b.subrange(20, 24) =~= bytes::bytes32(number));
    assert(b.subrange(24, 28) =~= bytes::bytes32(e.metadata.uid as int));
    assert(b.subrange(28, 32) =~= bytes::bytes32(e.metadata.gid as int));
    assert(b.subrange(32, 40) =~= bytes::bytes64(e.metadata.mtime as int));
    assert(b.subrange(40, 44) =~= bytes::bytes32(e.metadata.mtime_nsec as int));
    assert(b.subrange(44, 48) =~= bytes::bytes32(e.links as int));
    assert(b.subrange(48, 56) =~= bytes::bytes64(0));
    assert(b.subrange(56, 64) =~= bytes::bytes64(0));
    lemma_le64_at(b, 48, 0);
    lemma_le64_at(b, 56, 0);
    lemma_le16_at(b, 4, e.metadata.mode as int);
    lemma_le16_at(b, 6, 0);
    lemma_le64_at(b, 8, e.size as int);
    lemma_le32_at(b, 20, number);
    lemma_le32_at(b, 24, e.metadata.uid as int);
    lemma_le32_at(b, 28, e.metadata.gid as int);
    lemma_le64_at(b, 32, e.metadata.mtime as int);
    lemma_le32_at(b, 40, e.metadata.mtime_nsec as int);
    lemma_le32_at(b, 44, e.links as int);
}

#[verifier::rlimit(60)]
#[verifier::spinoff_prover]
proof fn lemma_inode_short(e: Entry, number: int, epoch: u64)
    requires
        inode::is_inode(e, epoch),
        e.inode_size == 32,
        0 <= number <= 0xffff_ffff,
    ensures
        ({
            let b = inode::inode_bytes(e, number, epoch);
            &&& b.len() == 32
            &&& bytes::le16(b, 4) == e.metadata.mode
            &&& bytes::le16(b, 6) == e.links
            &&& bytes::le32(b, 8) == e.size
            &&& epoch + bytes::le32(b, 12) == e.metadata.mtime
            &&& bytes::le32(b, 20) == number
            &&& bytes::le16(b, 24) == e.metadata.uid
            &&& bytes::le16(b, 26) == e.metadata.gid
            &&& bytes::le32(b, 28) == 0
        }),
{
    let b = inode::inode_bytes(e, number, epoch);
    inode::lemma_body_len(e, number, epoch);
    assert(b.subrange(4, 6) =~= bytes::bytes16(e.metadata.mode as int));
    assert(b.subrange(6, 8) =~= bytes::bytes16(e.links as int));
    assert(b.subrange(8, 12) =~= bytes::bytes32(e.size as int));
    assert(b.subrange(12, 16) =~= bytes::bytes32(e.metadata.mtime - epoch));
    assert(b.subrange(20, 24) =~= bytes::bytes32(number));
    assert(b.subrange(24, 26) =~= bytes::bytes16(e.metadata.uid as int));
    assert(b.subrange(26, 28) =~= bytes::bytes16(e.metadata.gid as int));
    assert(b.subrange(28, 32) =~= bytes::bytes32(0));
    lemma_le16_at(b, 4, e.metadata.mode as int);
    lemma_le16_at(b, 6, e.links as int);
    lemma_le32_at(b, 8, e.size as int);
    lemma_le32_at(b, 12, e.metadata.mtime - epoch);
    lemma_le32_at(b, 20, number);
    lemma_le16_at(b, 24, e.metadata.uid as int);
    lemma_le16_at(b, 26, e.metadata.gid as int);
    lemma_le32_at(b, 28, 0);
}

#[verifier::rlimit(50)]
#[verifier::spinoff_prover]
proof fn lemma_states_form(img: Seq<u8>, at: int, e: Entry, number: int, epoch: u64)
    requires
        inode::is_inode(e, epoch),
        0 <= number <= 0xffff_ffff,
        bytes::stands_at(img, at, inode::inode_bytes(e, number, epoch)),
    ensures
        states_form(img, at, e, number),
{
    let head = inode::inode_bytes(e, number, epoch);
    builder::lemma_inode_fields(e, number, epoch);
    if e.inode_size == 64 {
        lemma_inode_long(e, number, epoch);
    } else {
        lemma_inode_short(e, number, epoch);
    }
    builder::lemma_part_reads(img, at, head, 0);
    builder::lemma_part_reads(img, at, head, 2);
    builder::lemma_part_reads(img, at, head, 4);
    builder::lemma_part_reads(img, at, head, 16);
    builder::lemma_part_reads(img, at, head, 20);
    lemma_form(
        bytes::le16(img, at),
        e.layout as int,
        e.inode_size == 64,
        bytes::le16(img, at + 2),
        e.xattrs@.len() as int,
    );
}

proof fn lemma_form(form: int, kind: int, long: bool, count: int, len: int)
    requires
        form == 2 * kind + if long {
            1int
        } else {
            0
        },
        len % 4 == 0,
        len == 0 ==> count == 0,
        len != 0 ==> len >= 12 && count == 1 + (len - 12) / 4,
    ensures
        form / 2 == kind,
        form % 2 == 1 <==> long,
        len > 0 ==> 4 * count + 8 == len,
{
}

#[verifier::spinoff_prover]
proof fn lemma_states_long(img: Seq<u8>, at: int, e: Entry, number: int, epoch: u64)
    requires
        inode::is_inode(e, epoch),
        e.inode_size == 64,
        0 <= number <= 0xffff_ffff,
        bytes::stands_at(img, at, inode::inode_bytes(e, number, epoch)),
    ensures
        states_long(img, at, e),
{
    let head = inode::inode_bytes(e, number, epoch);
    lemma_inode_long(e, number, epoch);
    builder::lemma_part_reads(img, at, head, 6);
    builder::lemma_part_reads(img, at, head, 8);
    builder::lemma_part_reads(img, at, head, 24);
    builder::lemma_part_reads(img, at, head, 28);
    builder::lemma_part_reads(img, at, head, 32);
    builder::lemma_part_reads(img, at, head, 40);
    builder::lemma_part_reads(img, at, head, 44);
    builder::lemma_part_reads(img, at, head, 48);
    builder::lemma_part_reads(img, at, head, 56);
}

#[verifier::spinoff_prover]
proof fn lemma_states_short(img: Seq<u8>, at: int, e: Entry, number: int, epoch: u64)
    requires
        inode::is_inode(e, epoch),
        e.inode_size == 32,
        0 <= number <= 0xffff_ffff,
        bytes::stands_at(img, at, inode::inode_bytes(e, number, epoch)),
    ensures
        states_short(img, at, e, epoch),
{
    let head = inode::inode_bytes(e, number, epoch);
    lemma_inode_short(e, number, epoch);
    builder::lemma_part_reads(img, at, head, 6);
    builder::lemma_part_reads(img, at, head, 8);
    builder::lemma_part_reads(img, at, head, 12);
    builder::lemma_part_reads(img, at, head, 24);
    builder::lemma_part_reads(img, at, head, 26);
    builder::lemma_part_reads(img, at, head, 28);
}

/// An inode that stands in an image says what its file is.
#[verifier::spinoff_prover]
proof fn lemma_states_file(img: Seq<u8>, e: Entry, number: int, epoch: u64)
    requires
        inode::is_inode(e, epoch),
        0 <= number <= 0xffff_ffff,
        bytes::stands_at(img, 32 * e.nid, inode::inode_bytes(e, number, epoch)),
        bytes::stands_at(img, 32 * e.nid + e.inode_size, e.xattrs@),
    ensures
        states_file(img, 32 * e.nid, e, number, epoch),
{
    lemma_states_form(img, 32 * e.nid, e, number, epoch);
    if e.inode_size == 64 {
        lemma_states_long(img, 32 * e.nid, e, number, epoch);
    } else {
        lemma_states_short(img, 32 * e.nid, e, number, epoch);
    }
}

/// True for a device, a pipe or a socket: a file without data.
pub open spec fn is_special(mode: u32) -> bool {
    let kind = mode / 0x1000 % 16;
    kind != 4 && kind != 8 && kind != 10
}

/// The inode of every file stands in the image where its number says, in units
/// of 32 bytes, and states the file: how it is laid out, its kind and rights, its
/// owner, its size, its time and its links. That of a device states the number of
/// the device.
#[verifier::rlimit(60)]
#[verifier::spinoff_prover]
pub proof fn law_inodes_state_their_files<F: Fn(&[u8], usize) -> Option<(usize, Vec<u8>)>>(
    lz4: F,
    before: Seq<Entry>,
    contents: Seq<Vec<u8>>,
    options: BuildOptions,
    epoch: u64,
    current_time: u64,
    shared: Seq<u8>,
    now: Seq<Entry>,
    img: Seq<u8>,
    report: BuildReport,
    i: int,
)
    requires
        build_options::invalid(options@) is None,
        contents.len() == before.len(),
        image::is_buildable(before, options.block_size as int, epoch),
        image::builds_to(
            lz4,
            before,
            contents,
            options,
            epoch,
            current_time,
            shared,
            now,
            img,
            report,
        ),
        0 <= i < before.len() < 0xffff_ffff,
        before[i].alias is None,
    ensures
        states_file(img, 32 * now[i].nid, now[i], i + 1, epoch),
        now[i].metadata == before[i].metadata,
        now[i].size == before[i].size,
        now[i].links == before[i].links,
        now[i].xattrs == before[i].xattrs,
        is_special(before[i].metadata.mode) ==> bytes::le32(img, 32 * now[i].nid + 16)
            == before[i].metadata.rdev && !has_compressed_layout(now[i]),
{
    let steps = choose|steps: Steps|
        #[trigger] image::is_image(
            lz4,
            before,
            contents,
            options,
            epoch,
            current_time,
            shared,
            steps,
            now,
            img,
        ) && image::reports(steps.staged, before.len() as int, report) && report.image_bytes
            == img.len();
    builder::lemma_own_inode(
        lz4,
        before,
        contents,
        options,
        epoch,
        current_time,
        shared,
        steps,
        now,
        img,
        i,
    );
    lemma_same_count(
        lz4,
        before,
        contents,
        options,
        epoch,
        current_time,
        shared,
        steps,
        now,
        img,
        i,
    );
    builder::lemma_standing_inode(
        lz4,
        before,
        contents,
        options,
        epoch,
        current_time,
        shared,
        steps,
        now,
        img,
        i,
    );
    builder::lemma_body_parts(img, now[i], i + 1, epoch);
    lemma_states_file(img, now[i], i + 1, epoch);
}

/// What the steps of a build do to one file.
#[verifier::rlimit(60)]
#[verifier::spinoff_prover]
proof fn lemma_steps_of<F: Fn(&[u8], usize) -> Option<(usize, Vec<u8>)>>(
    lz4: F,
    before: Seq<Entry>,
    contents: Seq<Vec<u8>>,
    options: BuildOptions,
    epoch: u64,
    current_time: u64,
    shared: Seq<u8>,
    steps: Steps,
    now: Seq<Entry>,
    img: Seq<u8>,
    i: int,
)
    requires
        build_options::invalid(options@) is None,
        contents.len() == before.len(),
        image::is_buildable(before, options.block_size as int, epoch),
        image::is_image(
            lz4,
            before,
            contents,
            options,
            epoch,
            current_time,
            shared,
            steps,
            now,
            img,
        ),
        0 <= i < before.len(),
        before[i].alias is None,
    ensures
        now.len() == before.len(),
        image::is_entry_stored(
            lz4,
            before[i],
            contents[i]@,
            image::METADATA_START + image::joined(steps.pieces, i).len(),
            options,
            steps.staged[i],
            steps.pieces[i],
        ),
        image::is_moved(
            steps.staged[i],
            image::place_of(steps.staged, options.block_size as int, i),
            options.block_size as int,
            image::data_shift(steps.staged, options.block_size as int, shared.len() as int),
            steps.placed[i],
        ),
        !layout::is_dir(steps.placed[i].metadata.mode) ==> now[i] == steps.placed[i],
{
    let n = before.len() as int;
    let b = options.block_size as int;
    let l = shared.len() as int;
    let start = image::data_start(steps.staged, b, l);
    let data = image::joined(steps.pieces, n);
    image::lemma_staged(lz4, before, contents, options, steps.staged, steps.pieces, epoch);
    assert(image::is_stored_at(lz4, before, contents, options, steps.staged, steps.pieces, i));
    assert(image::keeps_file(before[i], steps.staged[i]));
    assert(steps.staged[i].alias is None);
    image::lemma_placed(steps.staged, b, l, epoch, steps.placed);
    assert(image::is_listed_at(steps.placed, b, start + data.len(), now, steps.listings, i));
}

/// There are as many files as before, and devices keep their numbers.
#[verifier::rlimit(50)]
#[verifier::spinoff_prover]
proof fn lemma_same_count<F: Fn(&[u8], usize) -> Option<(usize, Vec<u8>)>>(
    lz4: F,
    before: Seq<Entry>,
    contents: Seq<Vec<u8>>,
    options: BuildOptions,
    epoch: u64,
    current_time: u64,
    shared: Seq<u8>,
    steps: Steps,
    now: Seq<Entry>,
    img: Seq<u8>,
    i: int,
)
    requires
        build_options::invalid(options@) is None,
        contents.len() == before.len(),
        image::is_buildable(before, options.block_size as int, epoch),
        image::is_image(
            lz4,
            before,
            contents,
            options,
            epoch,
            current_time,
            shared,
            steps,
            now,
            img,
        ),
        0 <= i < before.len(),
        before[i].alias is None,
    ensures
        now.len() == before.len(),
        is_special(before[i].metadata.mode) ==> now[i].data_union == before[i].metadata.rdev
            && now[i].layout == before[i].layout,
        !has_compressed_layout(before[i]),
{
    let b = options.block_size as int;
    lemma_steps_of(
        lz4,
        before,
        contents,
        options,
        epoch,
        current_time,
        shared,
        steps,
        now,
        img,
        i,
    );
    assert(image::is_ready(before[i], b, epoch));
    if is_special(before[i].metadata.mode) {
        lemma_special_kept(
            lz4,
            before[i],
            contents[i]@,
            image::METADATA_START + image::joined(steps.pieces, i).len(),
            options,
            steps.staged[i],
            steps.pieces[i],
            image::place_of(steps.staged, b, i),
            image::data_shift(steps.staged, b, shared.len() as int),
            steps.placed[i],
        );
    }
}

proof fn lemma_special_kept<F: Fn(&[u8], usize) -> Option<(usize, Vec<u8>)>>(
    lz4: F,
    e: Entry,
    data: Seq<u8>,
    position: int,
    options: BuildOptions,
    staged: Entry,
    stored: Seq<u8>,
    place: int,
    shift: int,
    placed: Entry,
)
    requires
        is_special(e.metadata.mode),
        e.layout == 0 || e.layout == 2,
        image::is_entry_stored(lz4, e, data, position, options, staged, stored),
        image::is_moved(staged, place, options.block_size as int, shift, placed),
    ensures
        placed.data_union == e.metadata.rdev,
        placed.layout == e.layout,
        !layout::is_dir(e.metadata.mode),
        !layout::is_dir(placed.metadata.mode),
{
    let kind = e.metadata.mode / 0x1000 % 16;
    assert(layout::format_of(e.metadata.mode) == kind * 0x1000);
}

/// The kind of a file is in the top four bits of its mode: 4 is a directory, 8 a
/// regular file and 10 a link. Directories list a number of their own for each
/// kind.
pub proof fn law_modes_tell_kinds(mode: u32)
    requires
        mode <= 0xffff,
    ensures
        ({
            let kind = mode / 4096;
            let listed = layout::ftype_of(mode);
            &&& layout::is_dir(mode) <==> kind == 4
            &&& layout::is_reg(mode) <==> kind == 8
            &&& layout::is_lnk(mode) <==> kind == 10
            &&& kind == 8 <==> listed == 1
            &&& kind == 4 <==> listed == 2
            &&& kind == 2 <==> listed == 3
            &&& kind == 6 <==> listed == 4
            &&& kind == 1 <==> listed == 5
            &&& kind == 12 <==> listed == 6
            &&& kind == 10 <==> listed == 7
            &&& listed <= 7
        }),
{
    assert(layout::format_of(mode) == mode / 4096 * 4096);
}

/// Layouts 1 and 3 are those of compressed files.
pub proof fn law_odd_layouts_are_compressed(e: Entry)
    requires
        e.layout <= 3,
    ensures
        layout::is_compressed(e.layout) <==> e.layout % 2 == 1,
        layout::is_compressed(e.layout) <==> has_compressed_layout(e),
{
}

// ---------------------------------------------------------------------------
// Attributes
// ---------------------------------------------------------------------------

/// True when the names that begin with a prefix have a number.
pub open spec fn is_namespace(prefix: Seq<char>, number: int) -> bool {
    ||| prefix == "user."@ && number == 1
    ||| prefix == "system.posix_acl_access"@ && number == 2
    ||| prefix == "system.posix_acl_default"@ && number == 3
    ||| prefix == "trusted."@ && number == 4
    ||| prefix == "security."@ && number == 6
}

/// An attribute is stored as the length of its name behind the prefix, the number
/// of the prefix, the length of its value in two bytes, the name and the value,
/// filled up with zeros to a multiple of four bytes.
#[verifier::rlimit(40)]
#[verifier::spinoff_prover]
pub proof fn law_attributes_are_stored_by_namespace(name: Seq<char>, value: Seq<u8>)
    requires
        xattrs::stored(name, value) is Ok,
    ensures
        exists|prefix: Seq<char>, rest: Seq<char>|
            {
                let s = xattrs::stored(name, value)->Ok_0;
                let suffix = vstd::utf8::encode_utf8(rest);
                let end = 4 + suffix.len() + value.len();
                &&& name == #[trigger] (prefix + rest)
                &&& is_namespace(prefix, s[1] as int)
                &&& s[0] == suffix.len()
                &&& bytes::le16(s, 2) == value.len()
                &&& s.subrange(4, 4 + suffix.len() as int) == suffix
                &&& s.subrange(4 + suffix.len() as int, end as int) == value
                &&& s.len() % 4 == 0
                &&& end <= s.len() < end + 4
                &&& forall|k: int| end <= k < s.len() ==> #[trigger] s[k] == 0
            },
{
    let (index, n) = xattrs::namespace(name)->0;
    let prefix = name.take(n);
    let rest = name.skip(n);
    let suffix = vstd::utf8::encode_utf8(rest);
    let s = xattrs::stored(name, value)->Ok_0;
    let head = seq![suffix.len() as u8, index] + bytes::bytes16(value.len() as int);
    assert(s.take(4) =~= head);
    lemma_prefix(name);
    assert(name =~= prefix + rest);
    bytes::lemma_bytes16(value.len() as int);
    assert(s[2] == head[2] && s[3] == head[3]);
    assert(s.subrange(4, 4 + suffix.len() as int) =~= suffix);
    let end = 4 + suffix.len() + value.len();
    assert(s.subrange(4 + suffix.len() as int, end as int) =~= value);
    assert(name == prefix + rest);
}

proof fn lemma_prefix(name: Seq<char>)
    requires
        xattrs::namespace(name) is Some,
    ensures
        ({
            let (index, n) = xattrs::namespace(name)->0;
            &&& 0 <= n <= name.len()
            &&& is_namespace(name.take(n), index as int)
        }),
{
}

// ---------------------------------------------------------------------------
// Whole images
// ---------------------------------------------------------------------------

/// Every image that is built starts with a superblock that states it. Its times
/// start with the chosen time, or with the earliest of its files, and the time of
/// the build is the chosen time or the current one.
#[verifier::rlimit(50)]
#[verifier::spinoff_prover]
pub proof fn law_built_images_state_themselves<
    F: Fn(&[u8], usize) -> Option<(usize, Vec<u8>)>,
>(
    lz4: F,
    before: Seq<Entry>,
    contents: Seq<Vec<u8>>,
    options: BuildOptions,
    current_time: u64,
    now: Seq<Entry>,
    img: Seq<u8>,
    report: BuildReport,
)
    requires
        build_options::invalid(options@) is None,
        contents.len() == before.len(),
        builder::are_collected(before),
        builder::is_built(lz4, before, contents, options, current_time, now, img, report),
    ensures
        exists|epoch: u64, shared: Seq<u8>|
            {
                &&& #[trigger] states_image(img, options, epoch, current_time, shared, now)
                &&& options.timestamp matches Some(time) ==> epoch == time
                &&& options.timestamp is None ==> {
                    &&& forall|i: int|
                        0 <= i < before.len() ==> epoch <= (#[trigger] before[i]).metadata.mtime
                    &&& exists|i: int|
                        0 <= i < before.len() && epoch == (#[trigger] before[i]).metadata.mtime
                }
            },
        states_compression(img, options, now),
{
    let epoch = builder::epoch_of(before, options);
    let (prepared, shared) = choose|prepared: Seq<Entry>, shared: Seq<u8>|
        {
            &&& #[trigger] prepare::prepares_to(
                before,
                prepared,
                options.xattr_tolerance,
                options.block_size,
                options.inline_data,
                epoch,
                shared,
            )
            &&& image::builds_to(
                lz4,
                prepared,
                contents,
                options,
                epoch,
                current_time,
                shared,
                now,
                img,
                report,
            )
        };
    builder::lemma_prepared(
        before,
        prepared,
        options.xattr_tolerance,
        options.block_size,
        options.inline_data,
        epoch,
        shared,
    );
    law_superblocks_state_their_image(
        lz4,
        prepared,
        contents,
        options,
        epoch,
        current_time,
        shared,
        now,
        img,
        report,
    );
    lemma_earliest(before, before.len() as int);
    assert(states_image(img, options, epoch, current_time, shared, now));
}

proof fn lemma_earliest(entries: Seq<Entry>, n: int)
    requires
        1 <= n <= entries.len(),
    ensures
        forall|i: int|
            0 <= i < n ==> builder::earliest(entries, n) <= (#[trigger] entries[i]).metadata.mtime,
        exists|i: int|
            0 <= i < n && builder::earliest(entries, n) == (#[trigger] entries[i]).metadata.mtime,
    decreases n,
{
    if n > 1 {
        lemma_earliest(entries, n - 1);
        let i = choose|i: int|
            0 <= i < n - 1 && builder::earliest(entries, n - 1) == (
            #[trigger] entries[i]).metadata.mtime;
        assert(entries[i].metadata.mtime >= builder::earliest(entries, n));
        assert(entries[n - 1].metadata.mtime >= builder::earliest(entries, n));
    } else {
        assert(builder::earliest(entries, 1) == entries[0].metadata.mtime);
    }
}

/// A pack of two indexes has eight bytes: their values, of 16 bits each, and the
/// block that it states.
pub proof fn law_short_packs_hold_two_values(values: Seq<int>, base: int)
    requires
        values.len() == 2,
        0 <= values[0] < 0x1_0000,
        0 <= values[1] < 0x1_0000,
        0 <= base <= 0xffff_ffff,
    ensures
        indexes::pack_bytes(values, base).len() == 8,
        bytes::le16(indexes::pack_bytes(values, base), 0) == values[0],
        bytes::le16(indexes::pack_bytes(values, base), 2) == values[1],
        bytes::le32(indexes::pack_bytes(values, base), 4) == base,
{
    let b = indexes::pack_bytes(values, base);
    let v0 = values[0] % 0x1_0000;
    let v1 = values[1] % 0x1_0000;
    bytes::lemma_bytes16(v0);
    bytes::lemma_bytes16(v1);
    bytes::lemma_bytes32(base);
    assert(b[0] == bytes::bytes16(v0)[0] && b[1] == bytes::bytes16(v0)[1]);
    assert(b[2] == bytes::bytes16(v1)[0] && b[3] == bytes::bytes16(v1)[1]);
    assert(b[4] == bytes::bytes32(base)[0] && b[5] == bytes::bytes32(base)[1]);
    assert(b[6] == bytes::bytes32(base)[2] && b[7] == bytes::bytes32(base)[3]);
}

/// The number of seven bytes, the lowest one first.
pub open spec fn number_of_seven(s: Seq<u8>, at: int) -> int {
    s[at] + 256 * s[at + 1] + 65_536 * s[at + 2] + 16_777_216 * s[at + 3] + 4_294_967_296 * s[at
        + 4] + 1_099_511_627_776 * s[at + 5] + 281_474_976_710_656 * s[at + 6]
}

/// Four values of 14 bits stand in seven bytes, the first one lowest.
#[verifier::rlimit(40)]
pub proof fn law_seven_bytes_hold_four_values(a: int, b: int, c: int, d: int)
    requires
        0 <= a < 16_384,
        0 <= b < 16_384,
        0 <= c < 16_384,
        0 <= d < 16_384,
    ensures
        indexes::seven_bytes(a, b, c, d).len() == 7,
        number_of_seven(indexes::seven_bytes(a, b, c, d), 0) == a + 16_384 * b + 268_435_456 * c
            + 4_398_046_511_104 * d,
{
    reveal(indexes::seven_bytes);
    let v = a + 0x4000 * b + 0x1000_0000 * c + 0x400_0000_0000 * d;
    assert(a % 0x4000 == a && b % 0x4000 == b && c % 0x4000 == c && d % 0x4000 == d);
    assert(0 <= v < 0x100_0000_0000_0000);
    bytes::lemma_bytes64(v);
    let all = bytes::bytes64(v);
    let s = indexes::seven_bytes(a, b, c, d);
    assert(s =~= all.take(7));
    bytes::law_numbers_start_with_their_lowest_byte(all, 0);
    assert(bytes::le64(all, 0) == v);
    assert(all[7] == 0);
}

proof fn lemma_seven(a: int, b: int, c: int, d: int)
    ensures
        indexes::seven_bytes(a, b, c, d).len() == 7,
{
    reveal(indexes::seven_bytes);
    let v = a % 0x4000 + 0x4000 * (b % 0x4000) + 0x1000_0000 * (c % 0x4000) + 0x400_0000_0000 * (d
        % 0x4000);
    bytes::lemma_bytes64(v);
    assert(bytes::bytes64(v).len() == 8);
}

/// A pack of sixteen indexes has 32 bytes: their values, four in every seven bytes,
/// and the block that it states.
pub proof fn law_long_packs_hold_sixteen_values(values: Seq<int>, base: int)
    requires
        values.len() == 16,
        0 <= base <= 0xffff_ffff,
    ensures
        ({
            let b = indexes::pack_bytes(values, base);
            &&& b.len() == 32
            &&& b.subrange(0, 7) == indexes::seven_bytes(values[0], values[1], values[2], values[3])
            &&& b.subrange(7, 14) == indexes::seven_bytes(values[4], values[5], values[6], values[7])
            &&& b.subrange(14, 21) == indexes::seven_bytes(values[8], values[9], values[10], values[11])
            &&& b.subrange(21, 28) == indexes::seven_bytes(values[12], values[13], values[14], values[15])
            &&& bytes::le32(b, 28) == base
        }),
{
    let b = indexes::pack_bytes(values, base);
    bytes::lemma_bytes32(base);
    lemma_seven(values[0], values[1], values[2], values[3]);
    lemma_seven(values[4], values[5], values[6], values[7]);
    lemma_seven(values[8], values[9], values[10], values[11]);
    lemma_seven(values[12], values[13], values[14], values[15]);
    let p = indexes::seven_bytes(values[0], values[1], values[2], values[3]);
    let q = indexes::seven_bytes(values[4], values[5], values[6], values[7]);
    let r = indexes::seven_bytes(values[8], values[9], values[10], values[11]);
    let s = indexes::seven_bytes(values[12], values[13], values[14], values[15]);
    assert(p.len() == 7 && q.len() == 7 && r.len() == 7 && s.len() == 7);
    assert(b.subrange(0, 7) =~= p);
    assert(b.subrange(7, 14) =~= q);
    assert(b.subrange(14, 21) =~= r);
    assert(b.subrange(21, 28) =~= s);
    assert(b[28] == bytes::bytes32(base)[0] && b[29] == bytes::bytes32(base)[1]);
    assert(b[30] == bytes::bytes32(base)[2] && b[31] == bytes::bytes32(base)[3]);
}

/// The packs of sixteen start at a multiple of 32 bytes, where there are any: before
/// them come as many indexes, two in every eight bytes, as it takes to get there from
/// the end of the header of the indexes.
pub proof fn law_long_packs_are_aligned(total: int, header_size: int, index: int)
    requires
        0 <= total,
        0 <= header_size,
    ensures
        ({
            let start = (header_size + 7) / 8 * 8 + 8;
            let initial = indexes::initial_count(total, header_size);
            &&& 0 <= initial <= 6 && initial % 2 == 0 && initial <= total
            &&& initial > 0 ==> (start + 4 * initial) % 32 == 0
            &&& initial == 0 ==> start % 32 == 0 || total < (32 - start % 32) / 4
            &&& indexes::pack_count(total, header_size, index) == 16 <==> initial <= index && (index
                - initial) / 16 < (total - initial) / 16
        }),
{
    reveal(indexes::pack_count);
    let start = (header_size + 7) / 8 * 8 + 8;
    let rest = start % 32;
    assert(rest == 0 || rest == 8 || rest == 16 || rest == 24);
    let initial = indexes::initial_count(total, header_size);
    let long = (total - initial) / 16;
    assert(index < initial + long * 16 <==> (index - initial) / 16 < long);
}

} // verus!
