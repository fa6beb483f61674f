//! What a built image gives back of the files that it was built from.

use vstd::prelude::*;

use crate::bytes;
use crate::erofs::build_options;
use crate::erofs::build_options::BuildOptions;
use crate::erofs::builder;
use crate::erofs::compression;
use crate::erofs::directory;
use crate::erofs::extents;
use crate::erofs::image;
use crate::erofs::image::{BuildReport, Steps};
use crate::erofs::indexes;
use crate::erofs::inode;
use crate::erofs::layout;
use crate::erofs::layout::{EROFS_INODE_COMPRESSED_COMPACT, EROFS_NAME_LEN};
use crate::erofs::prepare;
use crate::erofs::reading;
use crate::erofs::stage;
use crate::erofs::tree::Entry;

verus! {

// ---------------------------------------------------------------------------
// Reading an inode
// ---------------------------------------------------------------------------

/// How the data of inode `nid` is laid out.
pub open spec fn layout_of(image: Seq<u8>, nid: int) -> int {
    bytes::le16(image, 32 * nid) / 2
}

/// How many bytes inode `nid` and its attributes take.
pub open spec fn header_of(image: Seq<u8>, nid: int) -> int {
    let count = bytes::le16(image, 32 * nid + 2);
    (if bytes::le16(image, 32 * nid) % 2 == 1 {
        64int
    } else {
        32
    }) + if count == 0 {
        0
    } else {
        12 + 4 * (count - 1)
    }
}

/// The size that inode `nid` states.
pub open spec fn size_of(image: Seq<u8>, nid: int) -> int {
    if bytes::le16(image, 32 * nid) % 2 == 1 {
        bytes::le64(image, 32 * nid + 8)
    } else {
        bytes::le32(image, 32 * nid + 8)
    }
}

/// What a reader makes of the compressed file of inode `nid`: its indexes stand
/// behind the inode.
pub open spec fn read_compressed(
    image: Seq<u8>,
    nid: int,
    block_size: int,
    unpack: spec_fn(Seq<u8>) -> Seq<u8>,
) -> Seq<u8> {
    let header = header_of(image, nid);
    let size = size_of(image, nid);
    let compact = layout_of(image, nid) == EROFS_INODE_COMPRESSED_COMPACT;
    let total = indexes::block_count(size, block_size);
    let at = 32 * nid + layout::rounded(header, 8);
    let length = if compact {
        8 + indexes::packs_len(total, header, 0)
    } else {
        16 + 8 * total
    };
    extents::read_indexed(
        image,
        image.subrange(at, at + length),
        size,
        block_size,
        header,
        compact,
        unpack,
    )
}

/// What a reader makes of the data of inode `nid`.
pub open spec fn read_data(
    image: Seq<u8>,
    nid: int,
    block_size: int,
    unpack: spec_fn(Seq<u8>) -> Seq<u8>,
) -> Seq<u8> {
    if layout::is_compressed(layout_of(image, nid) as u8) {
        read_compressed(image, nid, block_size, unpack)
    } else {
        builder::read_flat(image, nid, block_size)
    }
}

/// What the fields of an inode say.
proof fn lemma_fields_say(img: Seq<u8>, e: Entry)
    requires
        e.inode_size == 32 || e.inode_size == 64,
        e.xattrs@.len() == 0 || 12 <= e.xattrs@.len(),
        e.xattrs@.len() % 4 == 0,
        bytes::le16(img, 32 * e.nid) == 2 * e.layout + if e.inode_size == 64 {
            1int
        } else {
            0
        },
        bytes::le16(img, 32 * e.nid + 2) == inode::xattr_count(e.xattrs@),
        e.inode_size == 64 ==> bytes::le64(img, 32 * e.nid + 8) == e.size,
        e.inode_size == 32 ==> bytes::le32(img, 32 * e.nid + 8) == e.size,
    ensures
        layout_of(img, e.nid as int) == e.layout,
        header_of(img, e.nid as int) == e.inode_size + e.xattrs@.len(),
        size_of(img, e.nid as int) == e.size,
{
    let form = bytes::le16(img, 32 * e.nid);
    assert(form / 2 == e.layout);
    assert((form % 2 == 1) == (e.inode_size == 64));
}

/// What stands behind a body's front and its padding.
proof fn lemma_behind(img: Seq<u8>, at: int, head: Seq<u8>, xattrs: Seq<u8>, rest: Seq<u8>)
    requires
        ({
            let front = head + xattrs;
            bytes::stands_at(
                img,
                at,
                front + bytes::filled(0, layout::rounded(front.len() as int, 8) - front.len())
                    + rest,
            )
        }),
    ensures
        bytes::stands_at(img, at + layout::rounded((head.len() + xattrs.len()) as int, 8), rest),
{
    let front = head + xattrs;
    layout::lemma_rounded(front.len() as int, 8);
    let padding = bytes::filled(0, layout::rounded(front.len() as int, 8) - front.len());
    builder::lemma_parts(img, at, front, padding, rest);
}

/// A body starts with its inode.
proof fn lemma_starts_with(img: Seq<u8>, at: int, body: Seq<u8>, head: Seq<u8>)
    requires
        bytes::stands_at(img, at, body),
        head.len() <= body.len(),
        body.take(head.len() as int) == head,
    ensures
        bytes::stands_at(img, at, head),
{
    let part = img.subrange(at, at + body.len());
    assert(img.subrange(at, at + head.len()) =~= part.take(head.len() as int));
}

/// The fields of an inode that stands in the image.
#[verifier::rlimit(50)]
#[verifier::spinoff_prover]
proof fn lemma_fields(img: Seq<u8>, e: Entry, number: int, epoch: u64)
    requires
        inode::is_inode(e, epoch),
        bytes::stands_at(img, 32 * e.nid, inode::body_bytes(e, number, epoch)),
    ensures
        layout_of(img, e.nid as int) == e.layout,
        header_of(img, e.nid as int) == e.inode_size + e.xattrs@.len(),
        size_of(img, e.nid as int) == e.size,
        layout::is_compressed(e.layout) ==> bytes::stands_at(
            img,
            32 * e.nid + layout::rounded(e.inode_size + e.xattrs@.len(), 8),
            e.compression@,
        ),
{
    let at = 32 * e.nid;
    let body = inode::body_bytes(e, number, epoch);
    let head = inode::inode_bytes(e, number, epoch);
    builder::lemma_inode_fields(e, number, epoch);
    assert(body.take(head.len() as int) =~= head);
    lemma_starts_with(img, at, body, head);
    builder::lemma_part_reads(img, at, head, 0);
    builder::lemma_part_reads(img, at, head, 2);
    builder::lemma_part_reads(img, at, head, 8);
    lemma_fields_say(img, e);
    if layout::is_compressed(e.layout) {
        lemma_behind(img, at, head, e.xattrs@, e.compression@);
    }
}

/// The compressed file of an inode that stands in the image.
#[verifier::rlimit(50)]
#[verifier::spinoff_prover]
proof fn lemma_read_compressed(
    img: Seq<u8>,
    e: Entry,
    number: int,
    epoch: u64,
    block_size: int,
    unpack: spec_fn(Seq<u8>) -> Seq<u8>,
)
    requires
        inode::is_inode(e, epoch),
        image::is_compressed_inode(e, block_size),
        bytes::stands_at(img, 32 * e.nid, inode::body_bytes(e, number, epoch)),
    ensures
        read_data(img, e.nid as int, block_size, unpack) == extents::read_indexed(
            img,
            e.compression@,
            e.size as int,
            block_size,
            e.inode_size + e.xattrs@.len(),
            e.layout == EROFS_INODE_COMPRESSED_COMPACT,
            unpack,
        ),
{
    lemma_fields(img, e, number, epoch);
}

// ---------------------------------------------------------------------------
// Compressed files
// ---------------------------------------------------------------------------

/// How a file came to be stored compressed.
#[verifier::rlimit(50)]
#[verifier::spinoff_prover]
proof fn lemma_packed_stored<F: Fn(&[u8], usize) -> Option<(usize, Vec<u8>)>>(
    lz4: F,
    e: Entry,
    data: Seq<u8>,
    position: int,
    options: BuildOptions,
    now: Entry,
    stored: Seq<u8>,
) -> (file: compression::CompressedFile)
    requires
        image::is_entry_stored(lz4, e, data, position, options, now, stored),
        layout::is_compressed(now.layout),
        !layout::is_compressed(e.layout),
    ensures
        layout::is_reg(e.metadata.mode),
        e.size == data.len(),
        compression::compresses_to(
            lz4,
            data,
            position,
            options.block_size as int,
            options.cluster_size as usize,
            options.compression,
            file,
            stored,
        ),
        if now.layout == EROFS_INODE_COMPRESSED_COMPACT {
            indexes::compacted(
                file.metadata@,
                e.inode_size + e.xattrs@.len(),
                options.block_size as int,
            ) == Ok::<Seq<u8>, indexes::IndexError>(now.compression@)
        } else {
            now.compression@ == file.metadata@
        },
{
    let (file, packed) = choose|file: compression::CompressedFile, packed: Seq<u8>|
        #[trigger] stage::is_candidate(lz4, data, position, options, file, packed)
            && stage::is_choice(e, data, position, options, file, packed, now, stored);
    assert(stage::is_candidate(lz4, data, position, options, file, packed));
    assert(stage::is_choice(e, data, position, options, file, packed, now, stored));
    file
}

/// A file that was stored compressed, and whose data and indexes were moved,
/// reads back.
#[verifier::rlimit(50)]
#[verifier::spinoff_prover]
proof fn lemma_compressed_file<F: Fn(&[u8], usize) -> Option<(usize, Vec<u8>)>>(
    lz4: F,
    unpack: spec_fn(Seq<u8>) -> Seq<u8>,
    e: Entry,
    data: Seq<u8>,
    position: int,
    options: BuildOptions,
    staged: Entry,
    stored: Seq<u8>,
    place: int,
    shift: int,
    now: Entry,
    img: Seq<u8>,
)
    requires
        build_options::invalid(options@) is None,
        !layout::is_compressed(e.layout),
        image::is_entry_stored(lz4, e, data, position, options, staged, stored),
        layout::is_compressed(staged.layout),
        image::keeps_file(e, staged),
        image::is_moved(staged, place, options.block_size as int, shift, now),
        position >= options.block_size,
        position % options.block_size as int == 0,
        0 <= shift,
        bytes::stands_at(img, position + shift * options.block_size, stored),
        img.len() as int / options.block_size as int <= u32::MAX,
        reading::undoes(unpack, lz4),
    ensures
        layout::is_reg(e.metadata.mode),
        extents::read_indexed(
            img,
            now.compression@,
            now.size as int,
            options.block_size as int,
            now.inode_size + now.xattrs@.len(),
            now.layout == EROFS_INODE_COMPRESSED_COMPACT,
            unpack,
        ) == data,
{
    let file = lemma_packed_stored(lz4, e, data, position, options, staged, stored);
    extents::law_moved_files_read_back(
        lz4,
        unpack,
        data,
        position,
        shift,
        options.block_size as int,
        options.cluster_size as usize,
        options.compression,
        file,
        stored,
        e.inode_size + e.xattrs@.len(),
        staged.layout == EROFS_INODE_COMPRESSED_COMPACT,
        staged.compression@,
        now.compression@,
        img,
    );
}

/// The data of file `i` stands in the image, in whole blocks that were moved on
/// from where they were first put.
#[verifier::rlimit(50)]
#[verifier::spinoff_prover]
proof fn lemma_piece_stands<F: Fn(&[u8], usize) -> Option<(usize, Vec<u8>)>>(
    lz4: F,
    before: Seq<Entry>,
    contents: Seq<Vec<u8>>,
    options: BuildOptions,
    epoch: u64,
    current_time: u64,
    shared: Seq<u8>,
    steps: Steps,
    now: Seq<Entry>,
    img: Seq<u8>,
    i: int,
)
    requires
        build_options::invalid(options@) is None,
        contents.len() == before.len(),
        image::is_buildable(before, options.block_size as int, epoch),
        image::is_image(
            lz4,
            before,
            contents,
            options,
            epoch,
            current_time,
            shared,
            steps,
            now,
            img,
        ),
        0 <= i < before.len(),
        image::area_of(steps.staged, options.block_size as int).end >= 0,
    ensures
        ({
            let b = options.block_size as int;
            let position = image::METADATA_START + image::joined(steps.pieces, i).len();
            let shift = image::data_shift(steps.staged, b, shared.len() as int);
            &&& position % b == 0
            &&& 0 <= shift
            &&& bytes::stands_at(img, position + shift * b, steps.pieces[i])
        }),
{
    let n = before.len() as int;
    let b = options.block_size as int;
    let l = shared.len() as int;
    let start = image::data_start(steps.staged, b, l);
    let data = image::joined(steps.pieces, n);
    let at = image::joined(steps.pieces, i).len() as int;
    let piece = steps.pieces[i];
    image::lemma_pieces_aligned(
        lz4,
        before,
        contents,
        options,
        steps.staged,
        steps.pieces,
        epoch,
        i,
    );
    vstd::arithmetic::div_mod::lemma_add_mod_noop(image::METADATA_START as int, at, b);
    vstd::arithmetic::div_mod::lemma_small_mod(0, b as nat);
    assert(compression::is_block_size(b));
    assert(image::METADATA_START as int % b == 0);
    image::lemma_areas(steps.staged, b, l);
    builder::lemma_joined_part(steps.pieces, n, i);
    let rest = img.skip(start);
    assert(rest.subrange(at, at + piece.len()) =~= data.subrange(at, at + piece.len()));
    assert(img.subrange(start + at, start + at + piece.len()) =~= rest.subrange(
        at,
        at + piece.len(),
    ));
}

/// What the steps of a build keep of file `i`.
#[verifier::rlimit(50)]
#[verifier::spinoff_prover]
proof fn lemma_kept<F: Fn(&[u8], usize) -> Option<(usize, Vec<u8>)>>(
    lz4: F,
    before: Seq<Entry>,
    contents: Seq<Vec<u8>>,
    options: BuildOptions,
    epoch: u64,
    current_time: u64,
    shared: Seq<u8>,
    steps: Steps,
    now: Seq<Entry>,
    img: Seq<u8>,
    i: int,
)
    requires
        build_options::invalid(options@) is None,
        contents.len() == before.len(),
        image::is_buildable(before, options.block_size as int, epoch),
        image::is_image(
            lz4,
            before,
            contents,
            options,
            epoch,
            current_time,
            shared,
            steps,
            now,
            img,
        ),
        0 <= i < before.len(),
        before[i].alias is None,
    ensures
        now.len() == before.len(),
        image::area_of(steps.staged, options.block_size as int).end >= 0,
        image::keeps_file(before[i], steps.staged[i]),
        image::is_moved(
            steps.staged[i],
            image::place_of(steps.staged, options.block_size as int, i),
            options.block_size as int,
            image::data_shift(steps.staged, options.block_size as int, shared.len() as int),
            steps.placed[i],
        ),
        image::keeps_inode(steps.placed[i], now[i]),
        image::is_stored_at(lz4, before, contents, options, steps.staged, steps.pieces, i),
        !layout::is_compressed(before[i].layout),
{
    let n = before.len() as int;
    let b = options.block_size as int;
    let l = shared.len() as int;
    let start = image::data_start(steps.staged, b, l);
    let data = image::joined(steps.pieces, n);
    image::lemma_staged(lz4, before, contents, options, steps.staged, steps.pieces, epoch);
    image::lemma_sizes(
        lz4,
        before,
        contents,
        options,
        n,
        steps.staged,
        steps.pieces,
        epoch,
    );
    image::lemma_placed(steps.staged, b, l, epoch, steps.placed);
    image::lemma_listed(steps.placed, b, start + data.len(), n, now, steps.listings);
    image::lemma_area(steps.staged, b, epoch);
    assert(image::keeps_inode(steps.placed[i], now[i]));
    assert(image::keeps_file(before[i], steps.staged[i]));
    assert(steps.staged[i].alias is None);
    assert(image::is_ready(before[i], b, epoch));
}

/// The inode of a file with a compressed layout gives the file back.
#[verifier::rlimit(50)]
#[verifier::spinoff_prover]
proof fn lemma_compressed_inode<F: Fn(&[u8], usize) -> Option<(usize, Vec<u8>)>>(
    lz4: F,
    unpack: spec_fn(Seq<u8>) -> Seq<u8>,
    before: Seq<Entry>,
    contents: Seq<Vec<u8>>,
    options: BuildOptions,
    epoch: u64,
    current_time: u64,
    shared: Seq<u8>,
    steps: Steps,
    now: Seq<Entry>,
    img: Seq<u8>,
    i: int,
)
    requires
        build_options::invalid(options@) is None,
        contents.len() == before.len(),
        image::is_buildable(before, options.block_size as int, epoch),
        image::is_image(
            lz4,
            before,
            contents,
            options,
            epoch,
            current_time,
            shared,
            steps,
            now,
            img,
        ),
        reading::undoes(unpack, lz4),
        0 <= i < before.len(),
        before[i].alias is None,
        layout::is_compressed(now[i].layout),
    ensures
        layout::is_reg(before[i].metadata.mode),
        extents::read_indexed(
            img,
            now[i].compression@,
            now[i].size as int,
            options.block_size as int,
            now[i].inode_size + now[i].xattrs@.len(),
            now[i].layout == EROFS_INODE_COMPRESSED_COMPACT,
            unpack,
        ) == contents[i]@,
{
    lemma_kept(
        lz4,
        before,
        contents,
        options,
        epoch,
        current_time,
        shared,
        steps,
        now,
        img,
        i,
    );
    lemma_piece_stands(
        lz4,
        before,
        contents,
        options,
        epoch,
        current_time,
        shared,
        steps,
        now,
        img,
        i,
    );
    lemma_compressed_file(
        lz4,
        unpack,
        before[i],
        contents[i]@,
        image::METADATA_START + image::joined(steps.pieces, i).len(),
        options,
        steps.staged[i],
        steps.pieces[i],
        image::place_of(steps.staged, options.block_size as int, i),
        image::data_shift(steps.staged, options.block_size as int, shared.len() as int),
        steps.placed[i],
        img,
    );
}

/// The inode of every directory, regular file and link gives its data back.
#[verifier::rlimit(50)]
#[verifier::spinoff_prover]
proof fn lemma_own_data<F: Fn(&[u8], usize) -> Option<(usize, Vec<u8>)>>(
    lz4: F,
    unpack: spec_fn(Seq<u8>) -> Seq<u8>,
    before: Seq<Entry>,
    contents: Seq<Vec<u8>>,
    options: BuildOptions,
    epoch: u64,
    current_time: u64,
    shared: Seq<u8>,
    now: Seq<Entry>,
    img: Seq<u8>,
    report: BuildReport,
    i: int,
)
    requires
        build_options::invalid(options@) is None,
        contents.len() == before.len(),
        image::is_buildable(before, options.block_size as int, epoch),
        image::builds_to(
            lz4,
            before,
            contents,
            options,
            epoch,
            current_time,
            shared,
            now,
            img,
            report,
        ),
        reading::undoes(unpack, lz4),
        0 <= i < before.len(),
        before[i].alias is None,
        layout::is_dir(before[i].metadata.mode) || layout::is_reg(before[i].metadata.mode)
            || layout::is_lnk(before[i].metadata.mode),
    ensures
        read_data(img, now[i].nid as int, options.block_size as int, unpack) == builder::data_of(
            before,
            contents,
            now,
            options.block_size as int,
            i,
        ),
{
    let b = options.block_size as int;
    let steps = choose|steps: Steps|
        #[trigger] image::is_image(
            lz4,
            before,
            contents,
            options,
            epoch,
            current_time,
            shared,
            steps,
            now,
            img,
        ) && image::reports(steps.staged, before.len() as int, report) && report.image_bytes
            == img.len();
    builder::lemma_own_inode(
        lz4,
        before,
        contents,
        options,
        epoch,
        current_time,
        shared,
        steps,
        now,
        img,
        i,
    );
    lemma_kept(
        lz4,
        before,
        contents,
        options,
        epoch,
        current_time,
        shared,
        steps,
        now,
        img,
        i,
    );
    builder::lemma_standing_inode(
        lz4,
        before,
        contents,
        options,
        epoch,
        current_time,
        shared,
        steps,
        now,
        img,
        i,
    );
    if layout::is_compressed(now[i].layout) {
        lemma_read_compressed(img, now[i], i + 1, epoch, b, unpack);
        lemma_compressed_inode(
            lz4,
            unpack,
            before,
            contents,
            options,
            epoch,
            current_time,
            shared,
            steps,
            now,
            img,
            i,
        );
    } else {
        lemma_fields(img, now[i], i + 1, epoch);
        builder::law_flat_data_reads_back(
            lz4,
            before,
            contents,
            options,
            epoch,
            current_time,
            shared,
            now,
            img,
            report,
            i,
        );
    }
}

// ---------------------------------------------------------------------------
// Whole images
// ---------------------------------------------------------------------------

/// True when every name in a directory is one that a directory can hold.
pub open spec fn has_entry_names(entries: Seq<Entry>) -> bool {
    forall|i: int, k: int|
        0 <= i < entries.len() && 0 <= k < entries[i].children@.len() ==> is_entry_bytes(
            #[trigger] entries[i].children@[k].0@,
        )
}

/// True for the bytes of a name that a directory can hold.
pub open spec fn is_entry_bytes(name: Seq<u8>) -> bool {
    0 < name.len() <= EROFS_NAME_LEN && !name.contains(0)
}

/// The file whose inode file `i` has: its own, or the one that it shares.
pub open spec fn owner_of(entries: Seq<Entry>, i: int) -> int {
    match entries[i].alias {
        Some(j) => j as int,
        None => i,
    }
}

/// True when the inode of file `i` gives the file back: a directory lists
/// itself, its parent and exactly its children, by name; a regular file has
/// its bytes, and a link its target.
pub open spec fn reads_back(
    before: Seq<Entry>,
    contents: Seq<Vec<u8>>,
    now: Seq<Entry>,
    img: Seq<u8>,
    block_size: int,
    unpack: spec_fn(Seq<u8>) -> Seq<u8>,
    i: int,
) -> bool {
    let owner = owner_of(before, i);
    let mode = before[owner].metadata.mode;
    let data = read_data(img, now[i].nid as int, block_size, unpack);
    &&& now[i].nid == now[owner].nid
    &&& layout::is_dir(mode) ==> {
        let listed = directory::read_directory(data, block_size);
        &&& listed.to_multiset() == prepare::listing(now, owner).to_multiset()
        &&& directory::is_sorted(listed)
        &&& now[owner].children == before[owner].children
    }
    &&& layout::is_reg(mode) ==> data == contents[owner]@
    &&& layout::is_lnk(mode) ==> data == image::target_of(before[owner])
}

/// The entries of a directory that lists valid names read back.
#[verifier::rlimit(50)]
#[verifier::spinoff_prover]
proof fn lemma_listing_reads_back(entries: Seq<Entry>, block_size: int, i: int)
    requires
        compression::is_block_size(block_size),
        0 <= i < entries.len(),
        has_entry_names(entries),
    ensures
        directory::read_directory(image::listing_data(entries, block_size, i), block_size)
            == directory::sorted(prepare::listing(entries, i)),
{
    let list = prepare::listing(entries, i);
    let sorted = directory::sorted(list);
    directory::law_sorting_keeps_entries(list);
    assert forall|k: int| 0 <= k < list.len() implies !(#[trigger] list[k]).name.contains(0u8)
        && list[k].name.len() <= EROFS_NAME_LEN by {
        if k >= 2 {
            let child = entries[i].children@[k - 2];
            assert(list[k] == prepare::child_model(entries, child));
            assert(is_entry_bytes(entries[i].children@[k - 2].0@));
        }
    }
    list.to_multiset_ensures();
    sorted.to_multiset_ensures();
    assert forall|k: int| 0 <= k < sorted.len() implies !(#[trigger] sorted[k]).name.contains(0u8)
        && sorted[k].name.len() <= EROFS_NAME_LEN by {
        assert(sorted.contains(sorted[k]));
        assert(sorted.to_multiset().count(sorted[k]) > 0);
        assert(list.to_multiset().count(sorted[k]) > 0);
        assert(list.contains(sorted[k]));
        let m = choose|m: int| 0 <= m < list.len() && list[m] == sorted[k];
        assert(!list[m].name.contains(0u8));
    }
    directory::lemma_names_pad_clearly(sorted, block_size, 0);
    assert(directory::all_short(sorted, block_size));
    directory::law_directories_read_back(sorted, block_size);
}

/// A whole image reads back: for every valid block size, cluster size,
/// compression and form of indexes, and whatever the files hold, the inode of
/// each file gives it back, with whatever undoes the compressor. Hard links
/// have one inode.
#[verifier::rlimit(50)]
#[verifier::spinoff_prover]
pub proof fn law_built_images_read_back<F: Fn(&[u8], usize) -> Option<(usize, Vec<u8>)>>(
    lz4: F,
    unpack: spec_fn(Seq<u8>) -> Seq<u8>,
    before: Seq<Entry>,
    contents: Seq<Vec<u8>>,
    options: BuildOptions,
    current_time: u64,
    now: Seq<Entry>,
    img: Seq<u8>,
    report: BuildReport,
    i: int,
)
    requires
        build_options::invalid(options@) is None,
        contents.len() == before.len(),
        builder::are_collected(before),
        has_entry_names(before),
        builder::is_built(lz4, before, contents, options, current_time, now, img, report),
        reading::undoes(unpack, lz4),
        0 <= i < before.len(),
    ensures
        reads_back(before, contents, now, img, options.block_size as int, unpack, i),
{
    let b = options.block_size as int;
    let epoch = builder::epoch_of(before, options);
    let (prepared, shared) = choose|prepared: Seq<Entry>, shared: Seq<u8>|
        {
            &&& #[trigger] prepare::prepares_to(
                before,
                prepared,
                options.xattr_tolerance,
                options.block_size,
                options.inline_data,
                epoch,
                shared,
            )
            &&& image::builds_to(
                lz4,
                prepared,
                contents,
                options,
                epoch,
                current_time,
                shared,
                now,
                img,
                report,
            )
        };
    builder::lemma_prepared(
        before,
        prepared,
        options.xattr_tolerance,
        options.block_size,
        options.inline_data,
        epoch,
        shared,
    );
    let owner = owner_of(before, i);
    assert(prepared[i].alias == before[i].alias);
    assert(0 <= owner < before.len()) by {
        assert(before[i].parent < before.len());
    }
    assert(prepared[owner].alias is None);
    assert(prepared[owner].metadata == before[owner].metadata);
    builder::law_inodes_keep_metadata(
        lz4,
        prepared,
        contents,
        options,
        epoch,
        current_time,
        shared,
        now,
        img,
        report,
        i,
    );
    let mode = before[owner].metadata.mode;
    if layout::is_dir(mode) || layout::is_reg(mode) || layout::is_lnk(mode) {
        lemma_own_data(
            lz4,
            unpack,
            prepared,
            contents,
            options,
            epoch,
            current_time,
            shared,
            now,
            img,
            report,
            owner,
        );
    }
    if layout::is_dir(mode) {
        lemma_children_kept(
            lz4,
            prepared,
            contents,
            options,
            epoch,
            current_time,
            shared,
            now,
            img,
            report,
        );
        assert forall|m: int, k: int|
            0 <= m < now.len() && 0 <= k < now[m].children@.len() implies is_entry_bytes(
            #[trigger] now[m].children@[k].0@,
        ) by {
            assert(now[m].children == prepared[m].children);
            assert(prepared[m].children == before[m].children);
            assert(is_entry_bytes(before[m].children@[k].0@));
        }
        assert(prepared[owner].children == before[owner].children);
        assert(now[owner].children == prepared[owner].children);
        lemma_listing_reads_back(now, b, owner);
        directory::law_sorting_keeps_entries(prepare::listing(now, owner));
    }
}

/// A build keeps what directories hold.
#[verifier::rlimit(50)]
#[verifier::spinoff_prover]
proof fn lemma_children_kept<F: Fn(&[u8], usize) -> Option<(usize, Vec<u8>)>>(
    lz4: F,
    before: Seq<Entry>,
    contents: Seq<Vec<u8>>,
    options: BuildOptions,
    epoch: u64,
    current_time: u64,
    shared: Seq<u8>,
    now: Seq<Entry>,
    img: Seq<u8>,
    report: BuildReport,
)
    requires
        build_options::invalid(options@) is None,
        contents.len() == before.len(),
        image::is_buildable(before, options.block_size as int, epoch),
        image::builds_to(
            lz4,
            before,
            contents,
            options,
            epoch,
            current_time,
            shared,
            now,
            img,
            report,
        ),
    ensures
        now.len() == before.len(),
        forall|i: int|
            0 <= i < before.len() ==> (#[trigger] now[i]).children == before[i].children,
{
    let steps = choose|steps: Steps|
        #[trigger] image::is_image(
            lz4,
            before,
            contents,
            options,
            epoch,
            current_time,
            shared,
            steps,
            now,
            img,
        ) && image::reports(steps.staged, before.len() as int, report) && report.image_bytes
            == img.len();
    let n = before.len() as int;
    let b = options.block_size as int;
    let l = shared.len() as int;
    let start = image::data_start(steps.staged, b, l);
    let data = image::joined(steps.pieces, n);
    image::lemma_staged(lz4, before, contents, options, steps.staged, steps.pieces, epoch);
    image::lemma_sizes(
        lz4,
        before,
        contents,
        options,
        n,
        steps.staged,
        steps.pieces,
        epoch,
    );
    image::lemma_placed(steps.staged, b, l, epoch, steps.placed);
    image::lemma_listed(steps.placed, b, start + data.len(), n, now, steps.listings);
    assert forall|i: int| 0 <= i < n implies (#[trigger] now[i]).children == before[i].children by {
        assert(image::keeps_inode(steps.placed[i], now[i]));
        assert(image::keeps_file(before[i], steps.staged[i]));
        assert(image::has_alias_nid(steps.staged, steps.placed, i));
        if steps.staged[i].alias is None {
            assert(image::is_moved(
                steps.staged[i],
                image::place_of(steps.staged, b, i),
                b,
                image::data_shift(steps.staged, b, l),
                steps.placed[i],
            ));
        }
    }
}

} // verus!
