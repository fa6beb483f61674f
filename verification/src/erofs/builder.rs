//! Building an image from collected files, and what can be read back of it.

use vstd::prelude::*;

use crate::bytes;
use crate::erofs::build_options;
use crate::erofs::build_options::{BuildOptions, OptionError};
use crate::erofs::compression;
use crate::erofs::image;
use crate::erofs::image::{BuildReport, ImageError, Steps};
use crate::erofs::inode;
use crate::erofs::layout;
use crate::erofs::layout::{EROFS_INODE_FLAT_INLINE, EROFS_INODE_FLAT_PLAIN};
use crate::erofs::prepare;
use crate::erofs::stage;
use crate::erofs::tree::{Entry, EntryError};
use crate::erofs::xattrs;

verus! {

/// Why an image cannot be built.
#[derive(Debug, Clone, Copy, PartialEq, Eq, Structural)]
pub enum BuildError {
    Options(OptionError),
    Entry(EntryError),
    Image(ImageError),
}

/// The least time of the first `n` files.
pub open spec fn earliest(entries: Seq<Entry>, n: int) -> u64
    decreases n,
{
    if n <= 1 {
        entries[0].metadata.mtime
    } else if entries[n - 1].metadata.mtime < earliest(entries, n - 1) {
        entries[n - 1].metadata.mtime
    } else {
        earliest(entries, n - 1)
    }
}

/// The time that the times in an image are counted from.
pub open spec fn epoch_of(entries: Seq<Entry>, options: BuildOptions) -> u64 {
    match options.timestamp {
        Some(time) => time,
        None => if entries.len() == 0 {
            0
        } else {
            earliest(entries, entries.len() as int)
        },
    }
}

pub fn choose_epoch(entries: &Vec<Entry>, options: &BuildOptions) -> (epoch: u64)
    ensures
        epoch == epoch_of(entries@, *options),
{
    if let Some(time) = options.timestamp {
        return time;
    }
    if entries.len() == 0 {
        return 0;
    }
    let mut epoch: u64 = entries[0].metadata.mtime;
    let mut n: usize = 1;
    while n < entries.len()
        invariant
            1 <= n <= entries@.len(),
            epoch == earliest(entries@, n as int),
        decreases entries@.len() - n,
    {
        if entries[n].metadata.mtime < epoch {
            epoch = entries[n].metadata.mtime;
        }
        n += 1;
    }
    epoch
}

/// True when files are as they were collected: a tree whose inodes hold no data
/// yet, and whose shared inodes belong to other files.
pub open spec fn are_collected(entries: Seq<Entry>) -> bool {
    &&& entries.len() > 0
    &&& prepare::is_tree(entries)
    &&& forall|i: int| 0 <= i < entries.len() ==> is_collected(entries, #[trigger] entries[i])
}

pub open spec fn is_collected(entries: Seq<Entry>, e: Entry) -> bool {
    &&& e.layout == EROFS_INODE_FLAT_PLAIN
    &&& e.inline@.len() == 0
    &&& e.compression@.len() == 0
    &&& e.metadata.mode <= 0xffff
    &&& e.alias matches Some(j) ==> entries[j as int].alias is None && !layout::is_dir(
        e.metadata.mode,
    )
}

proof fn lemma_prepared_entry(
    entries: Seq<Entry>,
    i: int,
    block_size: u32,
    inline_data: bool,
    epoch: u64,
    shared: Seq<(Seq<char>, Seq<u8>, u32)>,
    now: Entry,
)
    requires
        compression::is_block_size(block_size as int),
        0 <= i < entries.len(),
        is_collected(entries, entries[i]),
        prepare::is_prepared(entries, i, block_size, inline_data, epoch, shared, now),
    ensures
        image::is_ready(now, block_size as int, epoch),
        now.alias == entries[i].alias,
        now.parent == entries[i].parent,
        now.children == entries[i].children,
        now.metadata == entries[i].metadata,
{
    let attributes = xattrs::attributes(entries[i].metadata.xattrs@);
    xattrs::law_encoded_attributes_are_quads(attributes, shared);
}

pub(crate) proof fn lemma_prepared(
    before: Seq<Entry>,
    now: Seq<Entry>,
    tolerance: u32,
    block_size: u32,
    inline_data: bool,
    epoch: u64,
    data: Seq<u8>,
)
    requires
        compression::is_block_size(block_size as int),
        are_collected(before),
        prepare::prepares_to(before, now, tolerance, block_size, inline_data, epoch, data),
    ensures
        image::is_buildable(now, block_size as int, epoch),
        now.len() == before.len(),
        forall|i: int|
            0 <= i < before.len() ==> {
                &&& (#[trigger] now[i]).alias == before[i].alias
                &&& now[i].children == before[i].children
                &&& now[i].metadata == before[i].metadata
            },
{
    let n = before.len() as int;
    let shared = choose|shared: Seq<(Seq<char>, Seq<u8>, u32)>|
        {
            &&& #[trigger] xattrs::shares(
                prepare::attribute_lists(before, n),
                tolerance as int,
                shared,
                data,
            )
            &&& prepare::all_prepared(before, now, block_size, inline_data, epoch, shared, n)
        };
    assert forall|i: int| 0 <= i < n implies {
        &&& (#[trigger] now[i]).alias == before[i].alias
        &&& now[i].parent == before[i].parent
        &&& now[i].children == before[i].children
        &&& now[i].metadata == before[i].metadata
        &&& before[i].alias is None ==> image::is_ready(now[i], block_size as int, epoch)
    } by {
        if before[i].alias is None {
            assert(is_collected(before, before[i]));
            lemma_prepared_entry(before, i, block_size, inline_data, epoch, shared, now[i]);
        }
    }
    assert forall|i: int| 0 <= i < n implies {
        let e = #[trigger] now[i];
        &&& e.parent < n
        &&& forall|k: int| 0 <= k < e.children@.len() ==> (#[trigger] e.children@[k]).1 < n
        &&& e.alias matches Some(j) ==> j < n
    } by {
        assert(before[i].parent < n);
    }
    assert forall|i: int| 0 <= i < n implies match (#[trigger] now[i]).alias {
        Some(j) => now[j as int].alias is None && !layout::is_dir(now[i].metadata.mode),
        None => image::is_ready(now[i], block_size as int, epoch),
    } by {
        assert(is_collected(before, before[i]));
        assert(before[i].parent < n);
        if let Some(j) = before[i].alias {
            assert(now[j as int].alias == before[j as int].alias);
        }
    }
}

/// True when `image` is the image of the collected files.
pub open spec fn is_built<F: Fn(&[u8], usize) -> Option<(usize, Vec<u8>)>>(
    lz4: F,
    before: Seq<Entry>,
    contents: Seq<Vec<u8>>,
    options: BuildOptions,
    current_time: u64,
    now: Seq<Entry>,
    image: Seq<u8>,
    report: BuildReport,
) -> bool {
    let epoch = epoch_of(before, options);
    exists|prepared: Seq<Entry>, shared: Seq<u8>|
        {
            &&& #[trigger] prepare::prepares_to(
                before,
                prepared,
                options.xattr_tolerance,
                options.block_size,
                options.inline_data,
                epoch,
                shared,
            )
            &&& image::builds_to(
                lz4,
                prepared,
                contents,
                options,
                epoch,
                current_time,
                shared,
                now,
                image,
                report,
            )
        }
}

/// True when writing the prepared files may fail with the error.
pub open spec fn fails_to_write<F: Fn(&[u8], usize) -> Option<(usize, Vec<u8>)>>(
    lz4: F,
    before: Seq<Entry>,
    contents: Seq<Vec<u8>>,
    options: BuildOptions,
    error: ImageError,
) -> bool {
    let epoch = epoch_of(before, options);
    exists|prepared: Seq<Entry>, shared: Seq<u8>|
        {
            &&& #[trigger] prepare::prepares_to(
                before,
                prepared,
                options.xattr_tolerance,
                options.block_size,
                options.inline_data,
                epoch,
                shared,
            )
            &&& image::is_build_error(
                lz4,
                prepared,
                contents,
                options,
                shared.len() as int,
                error,
            )
        }
}

/// Builds the image of the collected files, whose data are the contents.
pub fn build_image<F: Fn(&[u8], usize) -> Option<(usize, Vec<u8>)>>(
    entries: &mut Vec<Entry>,
    contents: &Vec<Vec<u8>>,
    options: &BuildOptions,
    current_time: u64,
    lz4: &F,
) -> (built: Result<(Vec<u8>, BuildReport), BuildError>)
    requires
        contents@.len() == old(entries)@.len(),
        are_collected(old(entries)@),
        forall|slice: &[u8], capacity: usize| call_requires(*lz4, (slice, capacity)),
    ensures
        match build_options::invalid(options@) {
            Some(error) => built matches Err(found) && found == BuildError::Options(error),
            None => match built {
                Ok((image, report)) => is_built(
                    *lz4,
                    old(entries)@,
                    contents@,
                    *options,
                    current_time,
                    final(entries)@,
                    image@,
                    report,
                ),
                Err(BuildError::Entry(error)) => prepare::fails_to_prepare(
                    old(entries)@,
                    options.xattr_tolerance,
                    options.block_size,
                    options.inline_data,
                    epoch_of(old(entries)@, *options),
                    error,
                ),
                Err(BuildError::Image(error)) => fails_to_write(
                    *lz4,
                    old(entries)@,
                    contents@,
                    *options,
                    error,
                ),
                Err(BuildError::Options(_)) => false,
            },
        },
{
    let ghost before = entries@;
    if let Err(error) = options.validate() {
        return Err(BuildError::Options(error));
    }
    let epoch = choose_epoch(entries, options);
    assert forall|i: int| 0 <= i < before.len() implies (#[trigger] before[i]).inline@.len()
        == 0 by {
        assert(is_collected(before, before[i]));
    }
    let shared = match prepare::prepare_entries(entries, options, epoch) {
        Ok(shared) => shared,
        Err(error) => {
            return Err(BuildError::Entry(error));
        },
    };
    proof {
        lemma_prepared(
            before,
            entries@,
            options.xattr_tolerance,
            options.block_size,
            options.inline_data,
            epoch,
            shared@,
        );
    }
    match image::write_filesystem(entries, contents, options, epoch, current_time, &shared, lz4) {
        Ok(built) => Ok(built),
        Err(error) => Err(BuildError::Image(error)),
    }
}

// ---------------------------------------------------------------------------
// Reading back
// ---------------------------------------------------------------------------

/// The data that inode `nid` of an image finds, where its blocks are stored as
/// they are.
pub open spec fn read_flat(image: Seq<u8>, nid: int, block_size: int) -> Seq<u8> {
    let at = 32 * nid;
    let form = bytes::le16(image, at);
    let extended = form % 2 == 1;
    let count = bytes::le16(image, at + 2);
    let size = if extended {
        bytes::le64(image, at + 8)
    } else {
        bytes::le32(image, at + 8)
    };
    let block = bytes::le32(image, at + 16);
    let header = at + if extended {
        64int
    } else {
        32
    } + if count == 0 {
        0
    } else {
        12 + 4 * (count - 1)
    };
    let inline = if form / 2 == EROFS_INODE_FLAT_INLINE {
        size % block_size
    } else {
        0
    };
    let external = size - inline;
    let stored = if external == 0 {
        Seq::<u8>::empty()
    } else {
        image.subrange(block * block_size, block * block_size + external)
    };
    stored + image.subrange(header, header + inline)
}

/// What the fields of an encoded inode read back as.
#[verifier::rlimit(50)]
#[verifier::spinoff_prover]
pub(crate) proof fn lemma_inode_fields(e: Entry, number: int, epoch: u64)
    requires
        inode::is_inode(e, epoch),
    ensures
        ({
            let b = inode::inode_bytes(e, number, epoch);
            &&& b.len() == e.inode_size
            &&& bytes::le16(b, 0) == 2 * e.layout + if e.inode_size == 64 {
                1int
            } else {
                0
            }
            &&& bytes::le16(b, 2) == inode::xattr_count(e.xattrs@)
            &&& bytes::le32(b, 16) == e.data_union
            &&& e.inode_size == 64 ==> bytes::le64(b, 8) == e.size
            &&& e.inode_size == 32 ==> bytes::le32(b, 8) == e.size
        }),
{
    let b = inode::inode_bytes(e, number, epoch);
    let extended: int = if e.inode_size == 64 {
        1
    } else {
        0
    };
    inode::lemma_body_len(e, number, epoch);
    bytes::lemma_bytes16(extended + 2 * e.layout);
    bytes::lemma_bytes16(inode::xattr_count(e.xattrs@));
    bytes::lemma_bytes32(e.data_union as int);
    bytes::lemma_bytes64(e.size as int);
    assert(b.subrange(0, 2) =~= bytes::bytes16(extended + 2 * e.layout));
    assert(b.subrange(2, 4) =~= bytes::bytes16(inode::xattr_count(e.xattrs@)));
    assert(b.subrange(16, 20) =~= bytes::bytes32(e.data_union as int));
    lemma_reads(b, 0, 2);
    lemma_reads(b, 2, 4);
    lemma_reads(b, 16, 20);
    if e.inode_size == 64 {
        assert(b.subrange(8, 16) =~= bytes::bytes64(e.size as int));
        lemma_reads(b, 8, 16);
    } else {
        bytes::lemma_bytes32(e.size as int);
        assert(b.subrange(8, 12) =~= bytes::bytes32(e.size as int));
        lemma_reads(b, 8, 12);
    }
}

/// Reading in a part of a sequence is reading in the sequence.
proof fn lemma_reads(s: Seq<u8>, from: int, to: int)
    requires
        0 <= from <= to <= s.len(),
    ensures
        to - from >= 2 ==> bytes::le16(s.subrange(from, to), 0) == bytes::le16(s, from),
        to - from >= 4 ==> bytes::le32(s.subrange(from, to), 0) == bytes::le32(s, from),
        to - from >= 8 ==> bytes::le64(s.subrange(from, to), 0) == bytes::le64(s, from),
{
}

/// The inode at a place of the image has the fields of its file, and its inline
/// data stands behind its attributes.
proof fn lemma_read_inode(img: Seq<u8>, e: Entry, number: int, epoch: u64, block_size: int)
    requires
        compression::is_block_size(block_size),
        inode::is_inode(e, epoch),
        image::is_flat_inode(e, block_size),
        bytes::stands_at(img, 32 * e.nid, inode::body_bytes(e, number, epoch)),
    ensures
        read_flat(img, e.nid as int, block_size) == (if e.size == e.inline@.len() {
            Seq::<u8>::empty()
        } else {
            img.subrange(
                e.data_union * block_size,
                e.data_union * block_size + e.size - e.inline@.len(),
            )
        }) + e.inline@,
{
    let at = 32 * e.nid;
    let body = inode::body_bytes(e, number, epoch);
    let head = inode::inode_bytes(e, number, epoch);
    lemma_inode_fields(e, number, epoch);
    inode::lemma_body_len(e, number, epoch);
    assert(body == head + e.xattrs@ + e.inline@);
    lemma_parts(img, at, head, e.xattrs@, e.inline@);
    lemma_part_reads(img, at, head, 0);
    lemma_part_reads(img, at, head, 2);
    lemma_part_reads(img, at, head, 8);
    lemma_part_reads(img, at, head, 16);
    lemma_found(img, e, block_size);
}

/// What stands at a place in three parts stands there part by part.
pub(crate) proof fn lemma_parts(img: Seq<u8>, at: int, a: Seq<u8>, b: Seq<u8>, c: Seq<u8>)
    requires
        bytes::stands_at(img, at, a + b + c),
    ensures
        bytes::stands_at(img, at, a),
        bytes::stands_at(img, at + a.len() + b.len(), c),
{
    let all = a + b + c;
    let part = img.subrange(at, at + all.len());
    assert(part.subrange(0, a.len() as int) =~= a);
    assert(img.subrange(at, at + a.len()) =~= part.subrange(0, a.len() as int));
    let from = (a.len() + b.len()) as int;
    assert(part.subrange(from, from + c.len()) =~= c);
    assert(img.subrange(at + from, at + from + c.len()) =~= part.subrange(from, from + c.len()));
}

/// Reading where a part stands is reading in the part.
pub(crate) proof fn lemma_part_reads(img: Seq<u8>, at: int, part: Seq<u8>, i: int)
    requires
        bytes::stands_at(img, at, part),
        0 <= i,
    ensures
        i + 2 <= part.len() ==> bytes::le16(img, at + i) == bytes::le16(part, i),
        i + 4 <= part.len() ==> bytes::le32(img, at + i) == bytes::le32(part, i),
        i + 8 <= part.len() ==> bytes::le64(img, at + i) == bytes::le64(part, i),
{
    let s = img.subrange(at, at + part.len());
    assert forall|k: int| 0 <= k < part.len() implies img[at + k] == #[trigger] part[k] by {
        assert(s[k] == img[at + k]);
    }
}

/// What an inode finds by its fields.
proof fn lemma_found(img: Seq<u8>, e: Entry, block_size: int)
    requires
        compression::is_block_size(block_size),
        image::is_flat_inode(e, block_size),
        e.inode_size == 32 || e.inode_size == 64,
        e.xattrs@.len() == 0 || 12 <= e.xattrs@.len(),
        e.xattrs@.len() % 4 == 0,
        bytes::le16(img, 32 * e.nid) == 2 * e.layout + if e.inode_size == 64 {
            1int
        } else {
            0
        },
        bytes::le16(img, 32 * e.nid + 2) == inode::xattr_count(e.xattrs@),
        bytes::le32(img, 32 * e.nid + 16) == e.data_union,
        e.inode_size == 64 ==> bytes::le64(img, 32 * e.nid + 8) == e.size,
        e.inode_size == 32 ==> bytes::le32(img, 32 * e.nid + 8) == e.size,
        bytes::stands_at(img, 32 * e.nid + e.inode_size + e.xattrs@.len(), e.inline@),
    ensures
        read_flat(img, e.nid as int, block_size) == (if e.size == e.inline@.len() {
            Seq::<u8>::empty()
        } else {
            img.subrange(
                e.data_union * block_size,
                e.data_union * block_size + e.size - e.inline@.len(),
            )
        }) + e.inline@,
{
    let form = bytes::le16(img, 32 * e.nid);
    assert(form / 2 == e.layout);
    assert((form % 2 == 1) == (e.inode_size == 64));
}

/// Each piece stands behind the ones before it.
pub(crate) proof fn lemma_joined_part(pieces: Seq<Seq<u8>>, n: int, i: int)
    requires
        0 <= i < n <= pieces.len(),
    ensures
        bytes::stands_at(image::joined(pieces, n), image::joined(pieces, i).len() as int, pieces[i]),
    decreases n,
{
    let all = image::joined(pieces, n);
    let at = image::joined(pieces, i).len() as int;
    if i == n - 1 {
        assert(all.subrange(at, at + pieces[i].len()) =~= pieces[i]);
    } else {
        lemma_joined_part(pieces, n - 1, i);
        let before = image::joined(pieces, n - 1);
        assert(all.subrange(at, at + pieces[i].len()) =~= before.subrange(
            at,
            at + pieces[i].len(),
        ));
    }
}

/// Data that was stored as it is at a block is found there.
proof fn lemma_stored_data(
    img: Seq<u8>,
    e: Entry,
    data: Seq<u8>,
    position: int,
    block_size: int,
    now: Entry,
    stored: Seq<u8>,
    at: int,
)
    requires
        compression::is_block_size(block_size),
        image::is_flat_inode(e, block_size),
        stage::is_flat(e, data, position, block_size, now, stored),
        bytes::stands_at(img, at, stored),
    ensures
        (if now.size == now.inline@.len() {
            Seq::<u8>::empty()
        } else {
            img.subrange(at, at + now.size - now.inline@.len())
        }) + now.inline@ == data,
        stage::external_len(e, data) > 0 ==> stored.len() >= block_size,
{
    image::lemma_inline(e, block_size);
    let external = stage::external_len(e, data);
    compression::lemma_in_blocks(external, block_size);
    let part = img.subrange(at, at + stored.len());
    assert(img.subrange(at, at + external) =~= part.subrange(0, external));
    assert(stored.subrange(0, external) =~= data.take(external));
    assert(data.take(external) + data.skip(external) =~= data);
    if external == 0 {
        assert(Seq::<u8>::empty() + data.skip(0) =~= data);
    }
}

/// True when the data of file `i` is stored as it is, in its directory's or its
/// own blocks or behind its inode.
pub open spec fn has_flat_data(e: Entry) -> bool {
    &&& e.alias is None
    &&& !layout::is_compressed(e.layout)
    &&& layout::is_dir(e.metadata.mode) || layout::is_reg(e.metadata.mode) || layout::is_lnk(
        e.metadata.mode,
    )
}

/// The data of file `i`: what a directory lists, the contents of a regular
/// file, or the target of a link.
pub open spec fn data_of(
    before: Seq<Entry>,
    contents: Seq<Vec<u8>>,
    now: Seq<Entry>,
    block_size: int,
    i: int,
) -> Seq<u8> {
    if layout::is_dir(before[i].metadata.mode) {
        image::listing_data(now, block_size, i)
    } else if layout::is_reg(before[i].metadata.mode) {
        contents[i]@
    } else {
        image::target_of(before[i])
    }
}

/// The inode of a stored file, and its data as it was stored.
#[verifier::spinoff_prover]
proof fn lemma_flat_stored<F: Fn(&[u8], usize) -> Option<(usize, Vec<u8>)>>(
    lz4: F,
    e: Entry,
    data: Seq<u8>,
    position: int,
    options: BuildOptions,
    now: Entry,
    stored: Seq<u8>,
)
    requires
        image::is_entry_stored(lz4, e, data, position, options, now, stored),
        !layout::is_compressed(now.layout),
        layout::is_reg(e.metadata.mode) || layout::is_lnk(e.metadata.mode),
    ensures
        stage::is_flat(
            e,
            if layout::is_reg(e.metadata.mode) {
                data
            } else {
                image::target_of(e)
            },
            position,
            options.block_size as int,
            now,
            stored,
        ),
{
    if layout::is_reg(e.metadata.mode) && stage::tries_compression(e, options) {
        let (file, packed) = choose|file: compression::CompressedFile, packed: Seq<u8>|
            #[trigger] stage::is_candidate(lz4, data, position, options, file, packed)
                && stage::is_choice(e, data, position, options, file, packed, now, stored);
        assert(stage::is_choice(e, data, position, options, file, packed, now, stored));
    }
}

proof fn lemma_block_at(position: int, shift: int, block_size: int)
    requires
        block_size > 0,
        position % block_size == 0,
    ensures
        (position / block_size + shift) * block_size == position + shift * block_size,
{
    vstd::arithmetic::div_mod::lemma_fundamental_div_mod(position, block_size);
    vstd::arithmetic::mul::lemma_mul_is_distributive_add_other_way(
        block_size,
        position / block_size,
        shift,
    );
    vstd::arithmetic::mul::lemma_mul_is_commutative(position / block_size, block_size);
}

proof fn lemma_blocks_below(a: int, b: int, block_size: int)
    requires
        block_size > 0,
        0 <= a,
        a + block_size <= b,
    ensures
        a / block_size < b / block_size,
{
    vstd::arithmetic::div_mod::lemma_div_is_ordered(a + block_size, b, block_size);
    vstd::arithmetic::div_mod::lemma_div_plus_one(a, block_size);
}

/// The blocks of a regular file or a link are found in the image.
#[verifier::spinoff_prover]
proof fn lemma_found_file<F: Fn(&[u8], usize) -> Option<(usize, Vec<u8>)>>(
    lz4: F,
    before: Seq<Entry>,
    contents: Seq<Vec<u8>>,
    options: BuildOptions,
    epoch: u64,
    current_time: u64,
    shared: Seq<u8>,
    steps: Steps,
    now: Seq<Entry>,
    img: Seq<u8>,
    i: int,
)
    requires
        build_options::invalid(options@) is None,
        contents.len() == before.len(),
        image::is_buildable(before, options.block_size as int, epoch),
        image::is_image(
            lz4,
            before,
            contents,
            options,
            epoch,
            current_time,
            shared,
            steps,
            now,
            img,
        ),
        0 <= i < before.len(),
        before[i].alias is None,
        has_flat_data(now[i]),
        !layout::is_dir(before[i].metadata.mode),
        now[i].metadata == before[i].metadata,
        image::area_of(steps.staged, options.block_size as int).end >= 0,
    ensures
        (if now[i].size == now[i].inline@.len() {
            Seq::<u8>::empty()
        } else {
            img.subrange(
                now[i].data_union * options.block_size,
                now[i].data_union * options.block_size + now[i].size - now[i].inline@.len(),
            )
        }) + now[i].inline@ == data_of(before, contents, now, options.block_size as int, i),
{
    let n = before.len() as int;
    let b = options.block_size as int;
    let l = shared.len() as int;
    let start = image::data_start(steps.staged, b, l);
    let shift = image::data_shift(steps.staged, b, l);
    let data = image::joined(steps.pieces, n);
    let at = image::joined(steps.pieces, i).len() as int;
    let position = image::METADATA_START + at;
    let e0 = before[i];
    let e1 = steps.staged[i];
    let e2 = steps.placed[i];
    let piece = steps.pieces[i];
    let wanted = data_of(before, contents, now, b, i);
    assert(image::is_stored_at(lz4, before, contents, options, steps.staged, steps.pieces, i));
    assert(image::is_listed_at(
        steps.placed,
        b,
        start + data.len(),
        now,
        steps.listings,
        i,
    ));
    image::lemma_sizes(
        lz4,
        before,
        contents,
        options,
        n,
        steps.staged,
        steps.pieces,
        epoch,
    );
    assert(image::keeps_file(e0, e1));
    assert(image::is_moved(e1, image::place_of(steps.staged, b, i), b, shift, e2));
    assert(!layout::is_dir(e2.metadata.mode));
    assert(now[i] == e2);
    assert(e1.layout == e2.layout);
    lemma_flat_stored(lz4, e0, contents[i]@, position, options, e1, piece);
    lemma_joined_part(steps.pieces, n, i);
    image::lemma_areas(steps.staged, b, l);
    let rest = img.skip(start);
    assert(bytes::stands_at(img, start + at, piece)) by {
        assert(rest.subrange(at, at + piece.len()) =~= data.subrange(at, at + piece.len()));
        assert(img.subrange(start + at, start + at + piece.len()) =~= rest.subrange(
            at,
            at + piece.len(),
        ));
    }
    lemma_stored_data(img, e0, wanted, position, b, e1, piece, start + at);
    if stage::external_len(e0, wanted) > 0 {
        lemma_blocks_below(position, img.len() as int, b);
        assert(e1.data_union == position / b);
        assert(image::states_address(e1));
        lemma_block_at(position, shift, b);
    }
}

/// The blocks of a directory are found in the image.
#[verifier::spinoff_prover]
proof fn lemma_found_directory<F: Fn(&[u8], usize) -> Option<(usize, Vec<u8>)>>(
    lz4: F,
    before: Seq<Entry>,
    contents: Seq<Vec<u8>>,
    options: BuildOptions,
    epoch: u64,
    current_time: u64,
    shared: Seq<u8>,
    steps: Steps,
    now: Seq<Entry>,
    img: Seq<u8>,
    i: int,
)
    requires
        build_options::invalid(options@) is None,
        contents.len() == before.len(),
        image::is_image(
            lz4,
            before,
            contents,
            options,
            epoch,
            current_time,
            shared,
            steps,
            now,
            img,
        ),
        0 <= i < before.len(),
        layout::is_dir(before[i].metadata.mode),
        steps.placed[i].metadata == before[i].metadata,
        image::is_flat_inode(steps.placed[i], options.block_size as int),
        prepare::is_tree(steps.placed),
        forall|k: int|
            0 <= k < before.len() ==> image::keeps_inode(steps.placed[k], #[trigger] now[k]),
    ensures
        (if now[i].size == now[i].inline@.len() {
            Seq::<u8>::empty()
        } else {
            img.subrange(
                now[i].data_union * options.block_size,
                now[i].data_union * options.block_size + now[i].size - now[i].inline@.len(),
            )
        }) + now[i].inline@ == data_of(before, contents, now, options.block_size as int, i),
{
    let n = before.len() as int;
    let b = options.block_size as int;
    let l = shared.len() as int;
    let start = image::data_start(steps.staged, b, l);
    let data = image::joined(steps.pieces, n);
    let directories = image::joined(steps.listings, n);
    let at = image::joined(steps.listings, i).len() as int;
    let position = start + data.len() + at;
    let piece = steps.listings[i];
    let wanted = image::listing_data(steps.placed, b, i);
    image::lemma_same_listing(steps.placed, now, i);
    assert(wanted == data_of(before, contents, now, b, i));
    assert(image::is_listed_at(
        steps.placed,
        b,
        start + data.len(),
        now,
        steps.listings,
        i,
    ));
    lemma_joined_part(steps.listings, n, i);
    let rest = img.skip(start);
    assert(bytes::stands_at(img, position, piece)) by {
        let from = data.len() + at;
        assert(rest.subrange(from, from + piece.len()) =~= directories.subrange(
            at,
            at + piece.len(),
        ));
        assert(img.subrange(position, position + piece.len()) =~= rest.subrange(
            from,
            from + piece.len(),
        ));
    }
    lemma_stored_data(img, steps.placed[i], wanted, position, b, now[i], piece, position);
    if stage::external_len(steps.placed[i], wanted) > 0 {
        lemma_block_at(position, 0, b);
    }
}

/// What an image reads back: the inode of every file whose blocks are stored as
/// they are finds exactly the data of the file. That of a directory is its
/// listing, that of a link its target.
#[verifier::rlimit(50)]
#[verifier::spinoff_prover]
pub proof fn law_flat_data_reads_back<F: Fn(&[u8], usize) -> Option<(usize, Vec<u8>)>>(
    lz4: F,
    before: Seq<Entry>,
    contents: Seq<Vec<u8>>,
    options: BuildOptions,
    epoch: u64,
    current_time: u64,
    shared: Seq<u8>,
    now: Seq<Entry>,
    img: Seq<u8>,
    report: BuildReport,
    i: int,
)
    requires
        build_options::invalid(options@) is None,
        contents.len() == before.len(),
        image::is_buildable(before, options.block_size as int, epoch),
        image::builds_to(
            lz4,
            before,
            contents,
            options,
            epoch,
            current_time,
            shared,
            now,
            img,
            report,
        ),
        0 <= i < before.len(),
        has_flat_data(now[i]),
    ensures
        read_flat(img, now[i].nid as int, options.block_size as int) == data_of(
            before,
            contents,
            now,
            options.block_size as int,
            i,
        ),
{
    let steps = choose|steps: Steps|
        #[trigger] image::is_image(
            lz4,
            before,
            contents,
            options,
            epoch,
            current_time,
            shared,
            steps,
            now,
            img,
        ) && image::reports(steps.staged, before.len() as int, report) && report.image_bytes
            == img.len();
    let n = before.len() as int;
    let b = options.block_size as int;
    let l = shared.len() as int;
    let start = image::data_start(steps.staged, b, l);
    let data = image::joined(steps.pieces, n);
    image::lemma_staged(lz4, before, contents, options, steps.staged, steps.pieces, epoch);
    image::lemma_sizes(
        lz4,
        before,
        contents,
        options,
        n,
        steps.staged,
        steps.pieces,
        epoch,
    );
    image::lemma_placed(steps.staged, b, l, epoch, steps.placed);
    image::lemma_listed(steps.placed, b, start + data.len(), n, now, steps.listings);
    image::lemma_still_apart(
        steps.placed,
        b,
        epoch,
        image::METADATA_START as int,
        image::METADATA_START + image::area_of(steps.staged, b).end,
        now,
    );
    assert(image::keeps_inode(steps.placed[i], now[i]));
    assert(image::keeps_file(before[i], steps.staged[i]));
    assert(image::has_alias_nid(steps.staged, steps.placed, i));
    assert(steps.placed[i].alias is None);
    assert(steps.staged[i].alias is None);
    assert(image::is_moved(
        steps.staged[i],
        image::place_of(steps.staged, b, i),
        b,
        image::data_shift(steps.staged, b, l),
        steps.placed[i],
    ));
    assert(now[i].metadata == before[i].metadata);
    assert(image::is_staged_inode(now[i], b, epoch));
    let head = img.take(start);
    let body = image::body_of(now, epoch, i);
    assert(bytes::stands_at(head, 32 * now[i].nid, body));
    assert(img.subrange(32 * now[i].nid, 32 * now[i].nid + body.len()) =~= head.subrange(
        32 * now[i].nid,
        32 * now[i].nid + body.len(),
    ));
    lemma_read_inode(img, now[i], i + 1, epoch, b);
    if layout::is_dir(before[i].metadata.mode) {
        lemma_found_directory(
            lz4,
            before,
            contents,
            options,
            epoch,
            current_time,
            shared,
            steps,
            now,
            img,
            i,
        );
    } else {
        image::lemma_area(steps.staged, b, epoch);
        lemma_found_file(
            lz4,
            before,
            contents,
            options,
            epoch,
            current_time,
            shared,
            steps,
            now,
            img,
            i,
        );
    }
}

/// What an inode states of its file.
pub struct InodeFacts {
    pub mode: int,
    pub uid: int,
    pub gid: int,
    pub links: int,
    pub size: int,
    pub mtime: int,
    pub mtime_nsec: int,
}

/// What inode `nid` of an image states. A short inode counts the time from the
/// epoch of the image on.
pub open spec fn read_facts(image: Seq<u8>, nid: int, epoch: u64) -> InodeFacts {
    let at = 32 * nid;
    let mode = bytes::le16(image, at + 4);
    if bytes::le16(image, at) % 2 == 1 {
        InodeFacts {
            mode,
            uid: bytes::le32(image, at + 24),
            gid: bytes::le32(image, at + 28),
            links: bytes::le32(image, at + 44),
            size: bytes::le64(image, at + 8),
            mtime: bytes::le64(image, at + 32),
            mtime_nsec: bytes::le32(image, at + 40),
        }
    } else {
        InodeFacts {
            mode,
            uid: bytes::le16(image, at + 24),
            gid: bytes::le16(image, at + 26),
            links: bytes::le16(image, at + 6),
            size: bytes::le32(image, at + 8),
            mtime: epoch + bytes::le32(image, at + 12),
            mtime_nsec: 0,
        }
    }
}

/// What is known of a file.
pub open spec fn facts_of(e: Entry) -> InodeFacts {
    InodeFacts {
        mode: e.metadata.mode as int,
        uid: e.metadata.uid as int,
        gid: e.metadata.gid as int,
        links: e.links as int,
        size: e.size as int,
        mtime: e.metadata.mtime as int,
        mtime_nsec: e.metadata.mtime_nsec as int,
    }
}

#[verifier::rlimit(50)]
#[verifier::spinoff_prover]
proof fn lemma_long_facts(e: Entry, number: int, epoch: u64)
    requires
        inode::is_inode(e, epoch),
        e.inode_size == 64,
    ensures
        ({
            let b = inode::inode_bytes(e, number, epoch);
            &&& bytes::le16(b, 4) == e.metadata.mode
            &&& bytes::le32(b, 24) == e.metadata.uid
            &&& bytes::le32(b, 28) == e.metadata.gid
            &&& bytes::le32(b, 44) == e.links
            &&& bytes::le64(b, 32) == e.metadata.mtime
            &&& bytes::le32(b, 40) == e.metadata.mtime_nsec
        }),
{
    let b = inode::inode_bytes(e, number, epoch);
    inode::lemma_body_len(e, number, epoch);
    bytes::lemma_bytes16(e.metadata.mode as int);
    bytes::lemma_bytes32(e.metadata.uid as int);
    bytes::lemma_bytes32(e.metadata.gid as int);
    bytes::lemma_bytes32(e.links as int);
    bytes::lemma_bytes64(e.metadata.mtime as int);
    bytes::lemma_bytes32(e.metadata.mtime_nsec as int);
    assert(b.subrange(4, 6) =~= bytes::bytes16(e.metadata.mode as int));
    assert(b.subrange(24, 28) =~= bytes::bytes32(e.metadata.uid as int));
    assert(b.subrange(28, 32) =~= bytes::bytes32(e.metadata.gid as int));
    assert(b.subrange(32, 40) =~= bytes::bytes64(e.metadata.mtime as int));
    assert(b.subrange(40, 44) =~= bytes::bytes32(e.metadata.mtime_nsec as int));
    assert(b.subrange(44, 48) =~= bytes::bytes32(e.links as int));
    lemma_reads(b, 4, 6);
    lemma_reads(b, 24, 28);
    lemma_reads(b, 28, 32);
    lemma_reads(b, 32, 40);
    lemma_reads(b, 40, 44);
    lemma_reads(b, 44, 48);
}

#[verifier::rlimit(50)]
#[verifier::spinoff_prover]
proof fn lemma_short_facts(e: Entry, number: int, epoch: u64)
    requires
        inode::is_inode(e, epoch),
        e.inode_size == 32,
    ensures
        ({
            let b = inode::inode_bytes(e, number, epoch);
            &&& bytes::le16(b, 4) == e.metadata.mode
            &&& bytes::le16(b, 24) == e.metadata.uid
            &&& bytes::le16(b, 26) == e.metadata.gid
            &&& bytes::le16(b, 6) == e.links
            &&& epoch + bytes::le32(b, 12) == e.metadata.mtime
            &&& e.metadata.mtime_nsec == 0
        }),
{
    let b = inode::inode_bytes(e, number, epoch);
    inode::lemma_body_len(e, number, epoch);
    bytes::lemma_bytes16(e.metadata.mode as int);
    bytes::lemma_bytes16(e.metadata.uid as int);
    bytes::lemma_bytes16(e.metadata.gid as int);
    bytes::lemma_bytes16(e.links as int);
    bytes::lemma_bytes32(e.metadata.mtime - epoch);
    assert(b.subrange(4, 6) =~= bytes::bytes16(e.metadata.mode as int));
    assert(b.subrange(6, 8) =~= bytes::bytes16(e.links as int));
    assert(b.subrange(12, 16) =~= bytes::bytes32(e.metadata.mtime - epoch));
    assert(b.subrange(24, 26) =~= bytes::bytes16(e.metadata.uid as int));
    assert(b.subrange(26, 28) =~= bytes::bytes16(e.metadata.gid as int));
    lemma_reads(b, 4, 6);
    lemma_reads(b, 6, 8);
    lemma_reads(b, 12, 16);
    lemma_reads(b, 24, 26);
    lemma_reads(b, 26, 28);
}

/// What stands at a place in two parts stands there part by part.
proof fn lemma_two_parts(img: Seq<u8>, at: int, a: Seq<u8>, b: Seq<u8>)
    requires
        bytes::stands_at(img, at, a + b),
    ensures
        bytes::stands_at(img, at, a),
        bytes::stands_at(img, at + a.len(), b),
{
    let all = a + b;
    let part = img.subrange(at, at + all.len());
    let n = a.len() as int;
    assert(img.subrange(at, at + n) =~= part.subrange(0, n));
    assert(part.subrange(0, n) =~= a);
    assert(img.subrange(at + n, at + n + b.len()) =~= part.subrange(n, n + b.len()));
    assert(part.subrange(n, n + b.len()) =~= b);
}

/// An inode states what is known of its file.
#[verifier::rlimit(50)]
#[verifier::spinoff_prover]
proof fn lemma_head_facts(img: Seq<u8>, e: Entry, number: int, epoch: u64)
    requires
        inode::is_inode(e, epoch),
        bytes::stands_at(img, 32 * e.nid, inode::inode_bytes(e, number, epoch)),
    ensures
        read_facts(img, e.nid as int, epoch) == facts_of(e),
{
    let at = 32 * e.nid;
    let head = inode::inode_bytes(e, number, epoch);
    lemma_inode_fields(e, number, epoch);
    lemma_part_reads(img, at, head, 0);
    lemma_part_reads(img, at, head, 4);
    lemma_part_reads(img, at, head, 8);
    lemma_part_reads(img, at, head, 24);
    if e.inode_size == 64 {
        lemma_long_facts(e, number, epoch);
        lemma_part_reads(img, at, head, 28);
        lemma_part_reads(img, at, head, 32);
        lemma_part_reads(img, at, head, 40);
        lemma_part_reads(img, at, head, 44);
    } else {
        lemma_short_facts(e, number, epoch);
        lemma_part_reads(img, at, head, 6);
        lemma_part_reads(img, at, head, 12);
        lemma_part_reads(img, at, head, 26);
    }
}

/// An inode that stands in the image with what follows it stands there alone too,
/// and its attributes stand behind it.
#[verifier::rlimit(50)]
#[verifier::spinoff_prover]
pub(crate) proof fn lemma_body_parts(img: Seq<u8>, e: Entry, number: int, epoch: u64)
    requires
        inode::is_inode(e, epoch),
        bytes::stands_at(img, 32 * e.nid, inode::body_bytes(e, number, epoch)),
    ensures
        bytes::stands_at(img, 32 * e.nid, inode::inode_bytes(e, number, epoch)),
        bytes::stands_at(img, 32 * e.nid + e.inode_size, e.xattrs@),
{
    let at = 32 * e.nid;
    let head = inode::inode_bytes(e, number, epoch);
    let front = head + e.xattrs@;
    inode::lemma_body_len(e, number, epoch);
    if layout::is_compressed(e.layout) {
        let padding = bytes::filled(0, layout::rounded(front.len() as int, 8) - front.len());
        lemma_two_parts(img, at, front + padding, e.compression@);
        lemma_two_parts(img, at, front, padding);
    } else {
        lemma_two_parts(img, at, front, e.inline@);
    }
    lemma_two_parts(img, at, head, e.xattrs@);
}

/// An inode that stands in the image states what is known of its file, and its
/// attributes stand behind it.
#[verifier::rlimit(50)]
#[verifier::spinoff_prover]
proof fn lemma_read_facts(img: Seq<u8>, e: Entry, number: int, epoch: u64)
    requires
        inode::is_inode(e, epoch),
        bytes::stands_at(img, 32 * e.nid, inode::body_bytes(e, number, epoch)),
    ensures
        read_facts(img, e.nid as int, epoch) == facts_of(e),
        bytes::stands_at(img, 32 * e.nid + e.inode_size, e.xattrs@),
{
    let at = 32 * e.nid;
    let head = inode::inode_bytes(e, number, epoch);
    let front = head + e.xattrs@;
    inode::lemma_body_len(e, number, epoch);
    if layout::is_compressed(e.layout) {
        let padding = bytes::filled(0, layout::rounded(front.len() as int, 8) - front.len());
        lemma_two_parts(img, at, front + padding, e.compression@);
        lemma_two_parts(img, at, front, padding);
    } else {
        lemma_two_parts(img, at, front, e.inline@);
    }
    lemma_two_parts(img, at, head, e.xattrs@);
    lemma_head_facts(img, e, number, epoch);
}

/// What is known of a file stays as it is through the steps of a build.
proof fn lemma_kept_facts(
    e: Entry,
    staged: Entry,
    at: int,
    block_size: int,
    shift: int,
    placed: Entry,
    now: Entry,
)
    requires
        image::keeps_file(e, staged),
        image::is_moved(staged, at, block_size, shift, placed),
        image::keeps_inode(placed, now),
    ensures
        facts_of(now) == facts_of(e),
        now.inode_size == e.inode_size,
        now.xattrs == e.xattrs,
        now.metadata == e.metadata,
        now.alias == e.alias,
{
}

/// The inode of a file keeps what is known of the file.
#[verifier::rlimit(50)]
#[verifier::spinoff_prover]
pub(crate) proof fn lemma_own_inode<F: Fn(&[u8], usize) -> Option<(usize, Vec<u8>)>>(
    lz4: F,
    before: Seq<Entry>,
    contents: Seq<Vec<u8>>,
    options: BuildOptions,
    epoch: u64,
    current_time: u64,
    shared: Seq<u8>,
    steps: Steps,
    now: Seq<Entry>,
    img: Seq<u8>,
    i: int,
)
    requires
        build_options::invalid(options@) is None,
        contents.len() == before.len(),
        image::is_buildable(before, options.block_size as int, epoch),
        image::is_image(
            lz4,
            before,
            contents,
            options,
            epoch,
            current_time,
            shared,
            steps,
            now,
            img,
        ),
        0 <= i < before.len(),
        before[i].alias is None,
    ensures
        facts_of(now[i]) == facts_of(before[i]),
        now[i].inode_size == before[i].inode_size,
        now[i].xattrs == before[i].xattrs,
        inode::is_inode(now[i], epoch),
        image::is_staged_inode(now[i], options.block_size as int, epoch),
        now[i].metadata == before[i].metadata,
        now[i].alias is None,
{
    let n = before.len() as int;
    let b = options.block_size as int;
    let l = shared.len() as int;
    let start = image::data_start(steps.staged, b, l);
    let data = image::joined(steps.pieces, n);
    image::lemma_staged(lz4, before, contents, options, steps.staged, steps.pieces, epoch);
    image::lemma_sizes(
        lz4,
        before,
        contents,
        options,
        n,
        steps.staged,
        steps.pieces,
        epoch,
    );
    image::lemma_placed(steps.staged, b, l, epoch, steps.placed);
    image::lemma_listed(steps.placed, b, start + data.len(), n, now, steps.listings);
    image::lemma_still_apart(
        steps.placed,
        b,
        epoch,
        image::METADATA_START as int,
        image::METADATA_START + image::area_of(steps.staged, b).end,
        now,
    );
    assert(image::keeps_inode(steps.placed[i], now[i]));
    assert(image::keeps_file(before[i], steps.staged[i]));
    assert(steps.staged[i].alias is None);
    let place = image::place_of(steps.staged, b, i);
    let shift = image::data_shift(steps.staged, b, l);
    assert(image::is_moved(steps.staged[i], place, b, shift, steps.placed[i]));
    lemma_kept_facts(before[i], steps.staged[i], place, b, shift, steps.placed[i], now[i]);
    assert(image::is_staged_inode(now[i], b, epoch));
}

/// The inode of a file stands in the image.
#[verifier::spinoff_prover]
pub(crate) proof fn lemma_standing_inode<F: Fn(&[u8], usize) -> Option<(usize, Vec<u8>)>>(
    lz4: F,
    before: Seq<Entry>,
    contents: Seq<Vec<u8>>,
    options: BuildOptions,
    epoch: u64,
    current_time: u64,
    shared: Seq<u8>,
    steps: Steps,
    now: Seq<Entry>,
    img: Seq<u8>,
    i: int,
)
    requires
        image::is_image(
            lz4,
            before,
            contents,
            options,
            epoch,
            current_time,
            shared,
            steps,
            now,
            img,
        ),
        0 <= i < now.len(),
        now[i].alias is None,
    ensures
        bytes::stands_at(img, 32 * now[i].nid, image::body_of(now, epoch, i)),
{
    let start = image::data_start(steps.staged, options.block_size as int, shared.len() as int);
    let head = img.take(start);
    let body = image::body_of(now, epoch, i);
    assert(bytes::stands_at(head, 32 * now[i].nid, body));
    assert(img.subrange(32 * now[i].nid, 32 * now[i].nid + body.len()) =~= head.subrange(
        32 * now[i].nid,
        32 * now[i].nid + body.len(),
    ));
}

/// A file that shares an inode has the number of that inode.
#[verifier::rlimit(50)]
#[verifier::spinoff_prover]
pub(crate) proof fn lemma_shared_inode<F: Fn(&[u8], usize) -> Option<(usize, Vec<u8>)>>(
    lz4: F,
    before: Seq<Entry>,
    contents: Seq<Vec<u8>>,
    options: BuildOptions,
    epoch: u64,
    current_time: u64,
    shared: Seq<u8>,
    steps: Steps,
    now: Seq<Entry>,
    img: Seq<u8>,
    i: int,
)
    requires
        build_options::invalid(options@) is None,
        contents.len() == before.len(),
        image::is_buildable(before, options.block_size as int, epoch),
        image::is_image(
            lz4,
            before,
            contents,
            options,
            epoch,
            current_time,
            shared,
            steps,
            now,
            img,
        ),
        0 <= i < before.len(),
        before[i].alias is Some,
    ensures
        now[i].nid == now[before[i].alias->0 as int].nid,
{
    let n = before.len() as int;
    let b = options.block_size as int;
    let l = shared.len() as int;
    let start = image::data_start(steps.staged, b, l);
    let data = image::joined(steps.pieces, n);
    image::lemma_staged(lz4, before, contents, options, steps.staged, steps.pieces, epoch);
    image::lemma_sizes(
        lz4,
        before,
        contents,
        options,
        n,
        steps.staged,
        steps.pieces,
        epoch,
    );
    image::lemma_placed(steps.staged, b, l, epoch, steps.placed);
    image::lemma_listed(steps.placed, b, start + data.len(), n, now, steps.listings);
    let j = before[i].alias->0 as int;
    assert(0 <= j < before.len());
    assert(image::keeps_file(before[i], steps.staged[i]));
    assert(image::has_alias_nid(steps.staged, steps.placed, i));
    assert(image::keeps_inode(steps.placed[i], now[i]));
    assert(image::keeps_inode(steps.placed[j], now[j]));
}

/// The inode of every file states its type and permissions, its owner, its
/// links, its size and its time, and its attributes stand behind the inode. A
/// file that shares an inode has the number of that inode.
pub proof fn law_inodes_keep_metadata<F: Fn(&[u8], usize) -> Option<(usize, Vec<u8>)>>(
    lz4: F,
    before: Seq<Entry>,
    contents: Seq<Vec<u8>>,
    options: BuildOptions,
    epoch: u64,
    current_time: u64,
    shared: Seq<u8>,
    now: Seq<Entry>,
    img: Seq<u8>,
    report: BuildReport,
    i: int,
)
    requires
        build_options::invalid(options@) is None,
        contents.len() == before.len(),
        image::is_buildable(before, options.block_size as int, epoch),
        image::builds_to(
            lz4,
            before,
            contents,
            options,
            epoch,
            current_time,
            shared,
            now,
            img,
            report,
        ),
        0 <= i < before.len(),
    ensures
        match before[i].alias {
            None => {
                &&& read_facts(img, now[i].nid as int, epoch) == facts_of(before[i])
                &&& bytes::stands_at(
                    img,
                    32 * now[i].nid + before[i].inode_size,
                    before[i].xattrs@,
                )
            },
            Some(j) => now[i].nid == now[j as int].nid,
        },
{
    let steps = choose|steps: Steps|
        #[trigger] image::is_image(
            lz4,
            before,
            contents,
            options,
            epoch,
            current_time,
            shared,
            steps,
            now,
            img,
        ) && image::reports(steps.staged, before.len() as int, report) && report.image_bytes
            == img.len();
    match before[i].alias {
        None => {
            lemma_own_inode(
                lz4,
                before,
                contents,
                options,
                epoch,
                current_time,
                shared,
                steps,
                now,
                img,
                i,
            );
            lemma_standing_inode(
                lz4,
                before,
                contents,
                options,
                epoch,
                current_time,
                shared,
                steps,
                now,
                img,
                i,
            );
            lemma_read_facts(img, now[i], i + 1, epoch);
        },
        Some(_) => {
            lemma_shared_inode(
                lz4,
                before,
                contents,
                options,
                epoch,
                current_time,
                shared,
                steps,
                now,
                img,
                i,
            );
        },
    }
}

} // verus!
