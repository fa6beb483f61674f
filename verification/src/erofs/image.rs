//! Writing an image: the data of files, the inodes before it, and the
//! directories behind it.

use vstd::prelude::*;

use crate::bytes;
use crate::erofs::build_options;
use crate::erofs::build_options::BuildOptions;
use crate::erofs::compression;
use crate::erofs::indexes;
use crate::erofs::indexes::IndexError;
use crate::erofs::inode;
use crate::erofs::directory;
use crate::erofs::directory::DirectoryError;
use crate::erofs::layout;
use crate::erofs::layout::{
    EROFS_INODE_COMPRESSED_COMPACT, EROFS_INODE_FLAT_INLINE, EROFS_INODE_FLAT_PLAIN,
};
use crate::erofs::prepare;
use crate::erofs::slots;
use crate::erofs::slots::SlotRequest;
use crate::erofs::stage;
use crate::erofs::stage::StageError;
use crate::erofs::tree::Entry;

verus! {

/// True when an inode is prepared for its data: it fits its form, and the room
/// for inline data is that of the end of the file.
pub open spec fn is_ready(e: Entry, block_size: int, epoch: u64) -> bool {
    &&& inode::is_inode(e, epoch)
    &&& is_flat_inode(e, block_size)
}

/// True when an inode is that of a file whose blocks are stored as they are.
pub open spec fn is_flat_inode(e: Entry, block_size: int) -> bool {
    &&& e.compression@.len() == 0
    &&& e.layout == EROFS_INODE_FLAT_PLAIN && e.inline@.len() == 0 || {
        &&& e.layout == EROFS_INODE_FLAT_INLINE
        &&& 0 < e.inline@.len() == e.size as int % block_size
        &&& e.inode_size + e.xattrs@.len() + e.inline@.len() <= block_size
    }
}

/// True when an inode is that of a compressed file, with an index for each
/// block.
pub open spec fn is_compressed_inode(e: Entry, block_size: int) -> bool {
    let total = indexes::block_count(e.size as int, block_size);
    &&& layout::is_compressed(e.layout)
    &&& e.inline@.len() == 0
    &&& e.size <= usize::MAX
    &&& e.compression@.len() == if e.layout == EROFS_INODE_COMPRESSED_COMPACT {
        8 + indexes::packs_len(total, e.inode_size + e.xattrs@.len(), 0)
    } else {
        16 + 8 * total
    }
}

/// True when an inode is complete but for its place and the place of its data.
pub open spec fn is_staged_inode(e: Entry, block_size: int, epoch: u64) -> bool {
    &&& inode::is_inode(e, epoch)
    &&& is_flat_inode(e, block_size) || is_compressed_inode(e, block_size)
}

// ---------------------------------------------------------------------------
// The data of one file
// ---------------------------------------------------------------------------

/// The target of a link.
pub open spec fn target_of(e: Entry) -> Seq<u8> {
    vstd::utf8::encode_utf8(e.metadata.symlink->0@)
}

/// True when `now` and `stored` may be the inode and the data of a file that
/// is stored at `position`. Directories follow later.
pub open spec fn is_entry_stored<F: Fn(&[u8], usize) -> Option<(usize, Vec<u8>)>>(
    lz4: F,
    e: Entry,
    data: Seq<u8>,
    position: int,
    options: BuildOptions,
    now: Entry,
    stored: Seq<u8>,
) -> bool {
    if layout::is_dir(e.metadata.mode) {
        now == e && stored.len() == 0
    } else if layout::is_reg(e.metadata.mode) {
        stage::is_stored(lz4, e, data, position, options, now, stored)
    } else if layout::is_lnk(e.metadata.mode) {
        &&& e.metadata.symlink is Some
        &&& !target_of(e).contains(0u8)
        &&& stage::is_flat(e, target_of(e), position, options.block_size as int, now, stored)
    } else {
        now == (Entry { data_union: e.metadata.rdev, ..e }) && stored.len() == 0
    }
}

/// True when storing the data of a file may fail with the error.
pub open spec fn is_entry_error<F: Fn(&[u8], usize) -> Option<(usize, Vec<u8>)>>(
    lz4: F,
    e: Entry,
    data: Seq<u8>,
    position: int,
    options: BuildOptions,
    error: StageError,
) -> bool {
    if layout::is_dir(e.metadata.mode) {
        false
    } else if layout::is_reg(e.metadata.mode) {
        stage::is_store_error(lz4, e, data, position, options, error)
    } else if layout::is_lnk(e.metadata.mode) {
        if e.metadata.symlink is None {
            error == StageError::MissingTarget
        } else if target_of(e).contains(0u8) {
            error == StageError::InvalidTarget
        } else {
            stage::flat_error(e, target_of(e), position, options.block_size as int) == Some(error)
        }
    } else {
        false
    }
}

fn holds_zero(data: &[u8]) -> (holds: bool)
    ensures
        holds == data@.contains(0u8),
{
    let mut i: usize = 0;
    while i < data.len()
        invariant
            i <= data@.len(),
            forall|k: int| 0 <= k < i ==> data@[k] != 0,
        decreases data@.len() - i,
    {
        if data[i] == 0 {
            assert(data@[i as int] == 0);
            return true;
        }
        i += 1;
    }
    false
}

/// Stored data ends at a block, and its inode is complete.
proof fn lemma_flat(e: Entry, data: Seq<u8>, position: int, block_size: int, epoch: u64, now: Entry, stored: Seq<u8>)
    requires
        compression::is_block_size(block_size),
        is_ready(e, block_size, epoch),
        stage::is_flat(e, data, position, block_size, now, stored),
    ensures
        is_staged_inode(now, block_size, epoch),
        is_flat_inode(now, block_size),
        now.inline@.len() == e.inline@.len(),
        stored.len() % (block_size as nat) == 0,
{
    lemma_inline(e, block_size);
    let external = stage::external_len(e, data);
    compression::lemma_in_blocks(external, block_size);
    assert(stored.len() == compression::in_blocks(external, block_size));
}

/// The room for inline data is at most the size of the file.
pub(crate) proof fn lemma_inline(e: Entry, block_size: int)
    requires
        compression::is_block_size(block_size),
        is_flat_inode(e, block_size),
    ensures
        e.inline@.len() <= e.size,
        e.inline@.len() < block_size,
{
    if e.layout != EROFS_INODE_FLAT_PLAIN {
        vstd::arithmetic::div_mod::lemma_mod_bound(e.size as int, block_size);
        vstd::arithmetic::div_mod::lemma_mod_decreases(e.size as nat, block_size as nat);
    }
}

/// True when storing the data of an inode changed nothing else of it.
pub open spec fn keeps_file(e: Entry, now: Entry) -> bool {
    &&& now.metadata == e.metadata
    &&& now.alias == e.alias
    &&& now.parent == e.parent
    &&& now.children == e.children
    &&& now.nid == e.nid
    &&& now.size == e.size
    &&& now.path == e.path
    &&& now.links == e.links
    &&& now.inode_size == e.inode_size
    &&& now.xattrs == e.xattrs
}

#[verifier::spinoff_prover]
proof fn lemma_packed<F: Fn(&[u8], usize) -> Option<(usize, Vec<u8>)>>(
    lz4: F,
    e: Entry,
    data: Seq<u8>,
    position: int,
    options: BuildOptions,
    file: compression::CompressedFile,
    packed: Seq<u8>,
)
    requires
        build_options::invalid(options@) is None,
        e.size == data.len(),
        e.size > options.block_size,
        stage::is_candidate(lz4, data, position, options, file, packed),
        stage::chosen_indexes(e, options, file) is Ok,
    ensures
        ({
            let metadata = stage::chosen_indexes(e, options, file)->Ok_0;
            let total = indexes::block_count(e.size as int, options.block_size as int);
            &&& metadata.len() == if file.used_compression && options.compact_indexes {
                8 + indexes::packs_len(total, e.inode_size + e.xattrs@.len(), 0)
            } else {
                16 + 8 * total
            }
            &&& packed.len() % (options.block_size as nat) == 0
        }),
{
    let block_size = options.block_size as int;
    indexes::law_one_index_per_block(
        lz4,
        data,
        position,
        block_size,
        options.cluster_size as usize,
        options.compression,
        file,
        packed,
    );
    let n = data.len() as int + block_size - 1;
    assert(1 <= n / block_size) by (nonlinear_arith)
        requires
            n >= block_size,
            block_size >= 512,
    ;
    if file.used_compression && options.compact_indexes {
        indexes::law_compact_length(file.metadata@, e.inode_size + e.xattrs@.len(), block_size);
    }
    let clusters = choose|clusters: Seq<compression::Cluster>|
        #[trigger] compression::is_compressed(
            lz4,
            data,
            position,
            block_size,
            options.cluster_size as usize,
            options.compression,
            clusters,
            file,
            packed,
        );
    assert(packed.len() % (block_size as nat) == 0);
}

#[verifier::spinoff_prover]
proof fn lemma_choice(
    e: Entry,
    data: Seq<u8>,
    position: int,
    options: BuildOptions,
    file: compression::CompressedFile,
    packed: Seq<u8>,
    epoch: u64,
    now: Entry,
    stored: Seq<u8>,
)
    requires
        compression::is_block_size(options.block_size as int),
        is_ready(e, options.block_size as int, epoch),
        e.size == data.len(),
        data.len() <= usize::MAX,
        stage::is_choice(e, data, position, options, file, packed, now, stored),
        ({
            let metadata = stage::chosen_indexes(e, options, file)->Ok_0;
            let total = indexes::block_count(e.size as int, options.block_size as int);
            &&& metadata.len() == if file.used_compression && options.compact_indexes {
                8 + indexes::packs_len(total, e.inode_size + e.xattrs@.len(), 0)
            } else {
                16 + 8 * total
            }
            &&& packed.len() % (options.block_size as nat) == 0
        }),
    ensures
        is_staged_inode(now, options.block_size as int, epoch),
        stored.len() % (options.block_size as nat) == 0,
        keeps_file(e, now),
{
    let block_size = options.block_size as int;
    let metadata = stage::chosen_indexes(e, options, file)->Ok_0;
    if file.used_compression && packed.len() + metadata.len() < stage::flat_size(e, block_size) {
        assert(is_compressed_inode(now, block_size));
    } else {
        lemma_flat(e, data, position, block_size, epoch, now, stored);
    }
}

#[verifier::spinoff_prover]
proof fn lemma_entry_stored<F: Fn(&[u8], usize) -> Option<(usize, Vec<u8>)>>(
    lz4: F,
    e: Entry,
    data: Seq<u8>,
    position: int,
    options: BuildOptions,
    epoch: u64,
    now: Entry,
    stored: Seq<u8>,
)
    requires
        build_options::invalid(options@) is None,
        is_ready(e, options.block_size as int, epoch),
        data.len() <= usize::MAX,
        is_entry_stored(lz4, e, data, position, options, now, stored),
    ensures
        is_staged_inode(now, options.block_size as int, epoch),
        stored.len() % (options.block_size as nat) == 0,
        keeps_file(e, now),
        layout::is_dir(e.metadata.mode) ==> now == e,
{
    let block_size = options.block_size as int;
    vstd::arithmetic::div_mod::lemma_small_mod(0, options.block_size as nat);
    if layout::is_dir(e.metadata.mode) {
    } else if layout::is_reg(e.metadata.mode) {
        if stage::tries_compression(e, options) {
            let (file, packed) = choose|file: compression::CompressedFile, packed: Seq<u8>|
                #[trigger] stage::is_candidate(lz4, data, position, options, file, packed)
                    && stage::is_choice(e, data, position, options, file, packed, now, stored);
            lemma_packed(lz4, e, data, position, options, file, packed);
            lemma_choice(e, data, position, options, file, packed, epoch, now, stored);
        } else {
            lemma_flat(e, data, position, block_size, epoch, now, stored);
        }
    } else if layout::is_lnk(e.metadata.mode) {
        lemma_flat(e, target_of(e), position, block_size, epoch, now, stored);
    }
}

/// Stores the data of one file at `position`.
pub fn stage_entry<F: Fn(&[u8], usize) -> Option<(usize, Vec<u8>)>>(
    e: &mut Entry,
    data: &[u8],
    position: u64,
    options: &BuildOptions,
    lz4: &F,
) -> (written: Result<Vec<u8>, StageError>)
    requires
        build_options::invalid(options@) is None,
        exists|epoch: u64| is_ready(*old(e), options.block_size as int, epoch),
        forall|slice: &[u8], capacity: usize| call_requires(*lz4, (slice, capacity)),
    ensures
        match written {
            Ok(stored) => is_entry_stored(
                *lz4,
                *old(e),
                data@,
                position as int,
                *options,
                *final(e),
                stored@,
            ),
            Err(error) => is_entry_error(
                *lz4,
                *old(e),
                data@,
                position as int,
                *options,
                error,
            ),
        },
{
    proof {
        lemma_inline(*e, options.block_size as int);
    }
    let mode = e.metadata.mode;
    if layout::s_isdir(mode) {
        return Ok(Vec::new());
    }
    if layout::s_isreg(mode) {
        return stage::write_regular(e, data, position, options, lz4);
    }
    if layout::s_islnk(mode) {
        let target = match &e.metadata.symlink {
            Some(target) => bytes::copy_range(
                target.as_str().as_bytes(),
                0,
                target.as_str().as_bytes().len(),
            ),
            None => {
                return Err(StageError::MissingTarget);
            },
        };
        assert(target@ =~= target_of(*e));
        if holds_zero(target.as_slice()) {
            return Err(StageError::InvalidTarget);
        }
        return stage::write_flat_bytes(e, target.as_slice(), position, options.block_size);
    }
    e.data_union = e.metadata.rdev;
    Ok(Vec::new())
}

// ---------------------------------------------------------------------------
// The data of all files
// ---------------------------------------------------------------------------

/// Where the metadata of an image starts.
pub const METADATA_START: u64 = 4096;

/// The largest image that block addresses reach.
pub const ADDRESS_LIMIT: u64 = 0x1000_0000_0000;

/// What was built.
#[derive(Debug, Clone, Copy, PartialEq, Eq, Structural)]
pub struct BuildReport {
    pub inode_count: u64,
    pub file_count: u64,
    pub directory_count: u64,
    pub uncompressed_bytes: u64,
    pub image_bytes: u64,
    pub compressed_files: u64,
}

impl Default for BuildReport {
    fn default() -> (report: BuildReport)
        ensures
            report == (BuildReport {
                inode_count: 0,
                file_count: 0,
                directory_count: 0,
                uncompressed_bytes: 0,
                image_bytes: 0,
                compressed_files: 0,
            }),
    {
        BuildReport {
            inode_count: 0,
            file_count: 0,
            directory_count: 0,
            uncompressed_bytes: 0,
            image_bytes: 0,
            compressed_files: 0,
        }
    }
}

/// Why an image cannot be written.
#[derive(Debug, Clone, Copy, PartialEq, Eq, Structural)]
pub enum ImageError {
    Stage(StageError),
    /// The files are larger together than can be counted.
    SizeOverflow,
    /// The inodes take more room than there is.
    MetadataOverflow,
    AddressOverflow,
    Index(IndexError),
    Directory(DirectoryError),
    TooManyInodes,
    /// The inode of the root lies too far behind.
    RootTooFar,
    /// The image does not fit in memory.
    TooLarge,
}

/// The first `n` pieces, one behind the other.
pub open spec fn joined(pieces: Seq<Seq<u8>>, n: int) -> Seq<u8>
    decreases n,
{
    if n <= 0 {
        seq![]
    } else {
        joined(pieces, n - 1) + pieces[n - 1]
    }
}

/// True when the first `n` files are stored, each behind the one before it,
/// and the other ones are as before.
pub open spec fn all_stored<F: Fn(&[u8], usize) -> Option<(usize, Vec<u8>)>>(
    lz4: F,
    before: Seq<Entry>,
    contents: Seq<Vec<u8>>,
    options: BuildOptions,
    n: int,
    now: Seq<Entry>,
    pieces: Seq<Seq<u8>>,
) -> bool {
    &&& now.len() == before.len()
    &&& pieces.len() == n
    &&& forall|i: int| 0 <= i < n ==> #[trigger] is_stored_at(lz4, before, contents, options, now, pieces, i)
    &&& forall|i: int| n <= i < before.len() ==> #[trigger] now[i] == before[i]
}

/// True when file `i` is stored behind the ones before it. One that shares an
/// inode has no data of its own.
pub open spec fn is_stored_at<F: Fn(&[u8], usize) -> Option<(usize, Vec<u8>)>>(
    lz4: F,
    before: Seq<Entry>,
    contents: Seq<Vec<u8>>,
    options: BuildOptions,
    now: Seq<Entry>,
    pieces: Seq<Seq<u8>>,
    i: int,
) -> bool {
    if before[i].alias is None {
        is_entry_stored(
            lz4,
            before[i],
            contents[i]@,
            METADATA_START + joined(pieces, i).len(),
            options,
            now[i],
            pieces[i],
        )
    } else {
        now[i] == before[i] && pieces[i].len() == 0
    }
}

/// How many of the first `n` inodes have the property that `p` tests.
pub open spec fn count_inodes(entries: Seq<Entry>, p: spec_fn(Entry) -> bool, n: int) -> nat
    decreases n,
{
    if n <= 0 {
        0
    } else {
        count_inodes(entries, p, n - 1) + if entries[n - 1].alias is None && p(entries[n - 1]) {
            1nat
        } else {
            0nat
        }
    }
}

/// The sizes of the first `n` regular files together.
pub open spec fn file_bytes(entries: Seq<Entry>, n: int) -> nat
    decreases n,
{
    if n <= 0 {
        0
    } else {
        file_bytes(entries, n - 1) + if entries[n - 1].alias is None && layout::is_reg(
            entries[n - 1].metadata.mode,
        ) {
            entries[n - 1].size as nat
        } else {
            0nat
        }
    }
}

/// True when the report states of the first `n` files what they are.
pub open spec fn reports(entries: Seq<Entry>, n: int, report: BuildReport) -> bool {
    &&& report.inode_count == count_inodes(entries, |e: Entry| true, n)
    &&& report.directory_count == count_inodes(
        entries,
        |e: Entry| layout::is_dir(e.metadata.mode),
        n,
    )
    &&& report.file_count == count_inodes(entries, |e: Entry| layout::is_reg(e.metadata.mode), n)
    &&& report.compressed_files == count_inodes(
        entries,
        |e: Entry| layout::is_compressed(e.layout),
        n,
    )
    &&& report.uncompressed_bytes == file_bytes(entries, n)
}

proof fn lemma_joined_same(a: Seq<Seq<u8>>, b: Seq<Seq<u8>>, n: int)
    requires
        n <= a.len(),
        n <= b.len(),
        forall|i: int| 0 <= i < n ==> a[i] == b[i],
    ensures
        joined(a, n) == joined(b, n),
    decreases n,
{
    if n > 0 {
        lemma_joined_same(a, b, n - 1);
    }
}

proof fn lemma_counts_same(a: Seq<Entry>, b: Seq<Entry>, p: spec_fn(Entry) -> bool, n: int)
    requires
        n <= a.len(),
        n <= b.len(),
        forall|i: int|
            0 <= i < n ==> (#[trigger] a[i]).alias == b[i].alias && p(a[i]) == p(b[i]) && a[i].size
                == b[i].size && a[i].metadata == b[i].metadata,
    ensures
        count_inodes(a, p, n) == count_inodes(b, p, n),
        file_bytes(a, n) == file_bytes(b, n),
    decreases n,
{
    if n > 0 {
        lemma_counts_same(a, b, p, n - 1);
        assert(a[n - 1].alias == b[n - 1].alias);
    }
}

proof fn lemma_count_bound(entries: Seq<Entry>, p: spec_fn(Entry) -> bool, n: int)
    requires
        0 <= n,
    ensures
        count_inodes(entries, p, n) <= n,
    decreases n,
{
    if n > 0 {
        lemma_count_bound(entries, p, n - 1);
    }
}

/// True when storing the data of the files may fail with the error.
pub open spec fn is_staging_error<F: Fn(&[u8], usize) -> Option<(usize, Vec<u8>)>>(
    lz4: F,
    before: Seq<Entry>,
    contents: Seq<Vec<u8>>,
    options: BuildOptions,
    error: ImageError,
) -> bool {
    exists|i: int, now: Seq<Entry>, pieces: Seq<Seq<u8>>|
        {
            &&& 0 <= i < before.len()
            &&& #[trigger] all_stored(lz4, before, contents, options, i, now, pieces)
            &&& stops_with(lz4, before, contents, options, pieces, i, error)
        }
}

/// True when storing file `i` behind the ones before it may fail with the
/// error.
pub open spec fn stops_with<F: Fn(&[u8], usize) -> Option<(usize, Vec<u8>)>>(
    lz4: F,
    before: Seq<Entry>,
    contents: Seq<Vec<u8>>,
    options: BuildOptions,
    pieces: Seq<Seq<u8>>,
    i: int,
    error: ImageError,
) -> bool {
    let position = METADATA_START + joined(pieces, i).len();
    match error {
        ImageError::AddressOverflow => position > METADATA_START + ADDRESS_LIMIT,
        ImageError::SizeOverflow => file_bytes(before, i + 1) > u64::MAX,
        ImageError::Stage(inner) => before[i].alias is None && is_entry_error(
            lz4,
            before[i],
            contents[i]@,
            position,
            options,
            inner,
        ),
        _ => false,
    }
}

/// Stores the data of all files. Gives the data, and what was stored.
pub fn stage_entries<F: Fn(&[u8], usize) -> Option<(usize, Vec<u8>)>>(
    entries: &mut Vec<Entry>,
    contents: &Vec<Vec<u8>>,
    options: &BuildOptions,
    epoch: u64,
    lz4: &F,
) -> (staged: Result<(Vec<u8>, BuildReport), ImageError>)
    requires
        build_options::invalid(options@) is None,
        contents@.len() == old(entries)@.len(),
        forall|i: int|
            0 <= i < old(entries)@.len() && (#[trigger] old(entries)@[i]).alias is None
                ==> is_ready(old(entries)@[i], options.block_size as int, epoch),
        forall|slice: &[u8], capacity: usize| call_requires(*lz4, (slice, capacity)),
    ensures
        match staged {
            Ok((data, report)) => {
                &&& stores_all(*lz4, old(entries)@, contents@, *options, final(entries)@, data@)
                &&& reports(final(entries)@, final(entries)@.len() as int, report)
                &&& report.image_bytes == 0
            },
            Err(error) => is_staging_error(*lz4, old(entries)@, contents@, *options, error),
        },
{
    let ghost before = entries@;
    let mut data: Vec<u8> = Vec::new();
    let ghost mut pieces: Seq<Seq<u8>> = seq![];
    let mut report = BuildReport::default();
    let mut n: usize = 0;
    while n < entries.len()
        invariant
            n <= entries@.len(),
            before == old(entries)@,
            contents@.len() == before.len(),
            build_options::invalid(options@) is None,
            forall|i: int|
                0 <= i < before.len() && (#[trigger] before[i]).alias is None ==> is_ready(
                    before[i],
                    options.block_size as int,
                    epoch,
                ),
            forall|slice: &[u8], capacity: usize| call_requires(*lz4, (slice, capacity)),
            all_stored(*lz4, before, contents@, *options, n as int, entries@, pieces),
            data@ == joined(pieces, n as int),
            reports(entries@, n as int, report),
            report.image_bytes == 0,
        decreases entries@.len() - n,
    {
        let ghost current = entries@;
        assert(current[n as int] == before[n as int]);
        if data.len() as u64 > ADDRESS_LIMIT {
            assert(stops_with(
                *lz4,
                before,
                contents@,
                *options,
                pieces,
                n as int,
                ImageError::AddressOverflow,
            ));
            return Err(ImageError::AddressOverflow);
        }
        proof {
            lemma_count_bound(current, |e: Entry| true, n as int);
            lemma_count_bound(current, |e: Entry| layout::is_dir(e.metadata.mode), n as int);
            lemma_count_bound(current, |e: Entry| layout::is_reg(e.metadata.mode), n as int);
            lemma_count_bound(current, |e: Entry| layout::is_compressed(e.layout), n as int);
            lemma_sizes(*lz4, before, contents@, *options, n as int, current, pieces, epoch);
            assert(entries.len() <= usize::MAX);
        }
        let ghost mut piece: Seq<u8> = seq![];
        if entries[n].alias.is_none() {
            let mode = entries[n].metadata.mode;
            report.inode_count = report.inode_count + 1;
            if layout::s_isdir(mode) {
                report.directory_count = report.directory_count + 1;
            }
            if layout::s_isreg(mode) {
                report.file_count = report.file_count + 1;
                let size: u64 = entries[n].size;
                match report.uncompressed_bytes.checked_add(size) {
                    Some(sum) => {
                        report.uncompressed_bytes = sum;
                    },
                    None => {
                        assert(stops_with(
                            *lz4,
                            before,
                            contents@,
                            *options,
                            pieces,
                            n as int,
                            ImageError::SizeOverflow,
                        ));
                        return Err(ImageError::SizeOverflow);
                    },
                }
            }
            let position: u64 = METADATA_START + data.len() as u64;
            assert(is_ready(entries@[n as int], options.block_size as int, epoch));
            match stage_entry(
                &mut entries[n],
                contents[n].as_slice(),
                position,
                options,
                lz4,
            ) {
                Ok(stored) => {
                    proof {
                        piece = stored@;
                        assert(contents@[n as int].len() <= usize::MAX);
                        lemma_entry_stored(
                            *lz4,
                            before[n as int],
                            contents@[n as int]@,
                            position as int,
                            *options,
                            epoch,
                            entries@[n as int],
                            stored@,
                        );
                    }
                    bytes::push_all(&mut data, stored.as_slice());
                },
                Err(error) => {
                    assert(stops_with(
                        *lz4,
                        before,
                        contents@,
                        *options,
                        pieces,
                        n as int,
                        ImageError::Stage(error),
                    ));
                    return Err(ImageError::Stage(error));
                },
            }
            if layout::erofs_inode_is_data_compressed(entries[n].layout) {
                report.compressed_files = report.compressed_files + 1;
            }
        }
        proof {
            let next = pieces.push(piece);
            assert forall|i: int| 0 <= i <= n implies joined(next, i) == joined(pieces, i) by {
                lemma_joined_same(next, pieces, i);
            }
            assert(joined(next, n + 1) == joined(next, n as int) + piece);
            assert(data@ =~= joined(next, n + 1));
            assert forall|i: int| 0 <= i < n + 1 implies #[trigger] is_stored_at(
                *lz4,
                before,
                contents@,
                *options,
                entries@,
                next,
                i,
            ) by {
                if i < n {
                    assert(is_stored_at(*lz4, before, contents@, *options, current, pieces, i));
                    assert(entries@[i] == current[i]);
                }
            }
            assert forall|i: int| 0 <= i < n implies #[trigger] current[i] == entries@[i] by {}
            lemma_counts_same(current, entries@, |e: Entry| true, n as int);
            lemma_counts_same(
                current,
                entries@,
                |e: Entry| layout::is_dir(e.metadata.mode),
                n as int,
            );
            lemma_counts_same(
                current,
                entries@,
                |e: Entry| layout::is_reg(e.metadata.mode),
                n as int,
            );
            lemma_counts_same(current, entries@, |e: Entry| layout::is_compressed(e.layout), n as int);
            pieces = next;
        }
        n += 1;
    }
    assert(all_stored(*lz4, before, contents@, *options, n as int, entries@, pieces));
    Ok((data, report))
}

/// True when `data` is the data of all files, and `now` are their inodes.
pub open spec fn stores_all<F: Fn(&[u8], usize) -> Option<(usize, Vec<u8>)>>(
    lz4: F,
    before: Seq<Entry>,
    contents: Seq<Vec<u8>>,
    options: BuildOptions,
    now: Seq<Entry>,
    data: Seq<u8>,
) -> bool {
    exists|pieces: Seq<Seq<u8>>|
        {
            &&& #[trigger] all_stored(
                lz4,
                before,
                contents,
                options,
                before.len() as int,
                now,
                pieces,
            )
            &&& data == joined(pieces, before.len() as int)
        }
}

/// Storing changes no file's size.
pub(crate) proof fn lemma_sizes<F: Fn(&[u8], usize) -> Option<(usize, Vec<u8>)>>(
    lz4: F,
    before: Seq<Entry>,
    contents: Seq<Vec<u8>>,
    options: BuildOptions,
    n: int,
    now: Seq<Entry>,
    pieces: Seq<Seq<u8>>,
    epoch: u64,
)
    requires
        build_options::invalid(options@) is None,
        contents.len() == before.len(),
        0 <= n <= before.len(),
        all_stored(lz4, before, contents, options, n, now, pieces),
        forall|i: int|
            0 <= i < before.len() && (#[trigger] before[i]).alias is None ==> is_ready(
                before[i],
                options.block_size as int,
                epoch,
            ),
    ensures
        file_bytes(now, n) == file_bytes(before, n),
        forall|i: int| 0 <= i < n ==> keeps_file(before[i], #[trigger] now[i]),
        forall|i: int|
            0 <= i < n && before[i].alias is None ==> is_staged_inode(
                #[trigger] now[i],
                options.block_size as int,
                epoch,
            ),
        joined(pieces, n).len() % (options.block_size as nat) == 0,
        forall|i: int| 0 <= i < n && layout::is_dir(before[i].metadata.mode) ==> #[trigger] now[i] == before[i],
{
    assert forall|i: int| 0 <= i < n implies keeps_file(before[i], #[trigger] now[i]) && (
    before[i].alias is None ==> is_staged_inode(now[i], options.block_size as int, epoch))
        && pieces[i].len() % (options.block_size as nat) == 0 && (layout::is_dir(
        before[i].metadata.mode,
    ) ==> now[i] == before[i]) by {
        assert(is_stored_at(lz4, before, contents, options, now, pieces, i));
        if before[i].alias is None {
            assert(contents[i].len() <= usize::MAX);
            lemma_entry_stored(
                lz4,
                before[i],
                contents[i]@,
                METADATA_START + joined(pieces, i).len(),
                options,
                epoch,
                now[i],
                pieces[i],
            );
        } else {
            vstd::arithmetic::div_mod::lemma_small_mod(0, options.block_size as nat);
        }
    }
    lemma_counts_same(now, before, |e: Entry| true, n);
    assert forall|i: int| 0 <= i < n implies (#[trigger] pieces[i]).len() % (
    options.block_size as nat) == 0 by {
        assert(keeps_file(before[i], now[i]));
    }
    lemma_joined_blocks(pieces, options.block_size as int, n);
}

proof fn lemma_joined_blocks(pieces: Seq<Seq<u8>>, block_size: int, n: int)
    requires
        block_size > 0,
        0 <= n <= pieces.len(),
        forall|i: int| 0 <= i < n ==> (#[trigger] pieces[i]).len() % (block_size as nat) == 0,
    ensures
        joined(pieces, n).len() % (block_size as nat) == 0,
    decreases n,
{
    vstd::arithmetic::div_mod::lemma_small_mod(0, block_size as nat);
    if n > 0 {
        lemma_joined_blocks(pieces, block_size, n - 1);
        vstd::arithmetic::div_mod::lemma_add_mod_noop(
            joined(pieces, n - 1).len() as int,
            pieces[n - 1].len() as int,
            block_size,
        );
    }
}

/// The data of each file starts with a block.
pub(crate) proof fn lemma_pieces_aligned<F: Fn(&[u8], usize) -> Option<(usize, Vec<u8>)>>(
    lz4: F,
    before: Seq<Entry>,
    contents: Seq<Vec<u8>>,
    options: BuildOptions,
    now: Seq<Entry>,
    pieces: Seq<Seq<u8>>,
    epoch: u64,
    i: int,
)
    requires
        build_options::invalid(options@) is None,
        contents.len() == before.len(),
        is_buildable(before, options.block_size as int, epoch),
        all_stored(lz4, before, contents, options, before.len() as int, now, pieces),
        0 <= i <= before.len(),
    ensures
        joined(pieces, i).len() as int % options.block_size as int == 0,
{
    assert forall|k: int| 0 <= k < i implies (#[trigger] pieces[k]).len() % (
    options.block_size as nat) == 0 by {
        assert(is_stored_at(lz4, before, contents, options, now, pieces, k));
        vstd::arithmetic::div_mod::lemma_small_mod(0, options.block_size as nat);
        if before[k].alias is None {
            assert(contents[k].len() <= usize::MAX);
            lemma_entry_stored(
                lz4,
                before[k],
                contents[k]@,
                METADATA_START + joined(pieces, k).len(),
                options,
                epoch,
                now[k],
                pieces[k],
            );
        }
    }
    lemma_joined_blocks(pieces, options.block_size as int, i);
}

// ---------------------------------------------------------------------------
// The places of inodes
// ---------------------------------------------------------------------------

/// What an inode asks for in the metadata area.
pub open spec fn request_of(e: Entry) -> SlotRequest {
    SlotRequest { body: e.body_len() as u64, inline: e.layout == EROFS_INODE_FLAT_INLINE }
}

/// What the inodes of the first `n` files ask for.
pub open spec fn requests_of(entries: Seq<Entry>, n: int) -> Seq<SlotRequest>
    decreases n,
{
    if n <= 0 {
        seq![]
    } else if entries[n - 1].alias is None {
        requests_of(entries, n - 1).push(request_of(entries[n - 1]))
    } else {
        requests_of(entries, n - 1)
    }
}

/// The metadata area with all inodes placed.
pub open spec fn area_of(entries: Seq<Entry>, block_size: int) -> slots::SlotState {
    let requests = requests_of(entries, entries.len() as int);
    slots::slots(requests, block_size, requests.len() as int)
}

/// Where the inode of file `i` stands in the image.
pub open spec fn place_of(entries: Seq<Entry>, block_size: int, i: int) -> int {
    METADATA_START + area_of(entries, block_size).offsets[inode::inode_count(entries, i) as int]
}

/// Where the shared attributes start.
pub open spec fn shared_start(entries: Seq<Entry>, block_size: int) -> int {
    METADATA_START + layout::rounded(area_of(entries, block_size).end, block_size)
}

/// Where the data of files starts.
pub open spec fn data_start(entries: Seq<Entry>, block_size: int, shared_len: int) -> int {
    shared_start(entries, block_size) + layout::rounded(shared_len, block_size)
}

/// How many blocks the data moves on to make room for the metadata.
pub open spec fn data_shift(entries: Seq<Entry>, block_size: int, shared_len: int) -> int {
    (data_start(entries, block_size, shared_len) - METADATA_START) / block_size
}

/// True when file `e` states where its data is stored in blocks.
pub open spec fn states_address(e: Entry) -> bool {
    (layout::is_reg(e.metadata.mode) || layout::is_lnk(e.metadata.mode)) && e.data_union != u32::MAX
}

/// True when `now` is the inode `e` at place `at`, with its data moved by
/// `shift` blocks.
pub open spec fn is_moved(e: Entry, at: int, block_size: int, shift: int, now: Entry) -> bool {
    &&& now.nid == at / 32
    &&& if layout::is_compressed(e.layout) {
        &&& indexes::relocated(
            e.compression@,
            e.inode_size + e.xattrs@.len(),
            indexes::block_count(e.size as int, block_size),
            e.layout == EROFS_INODE_COMPRESSED_COMPACT,
            shift,
        ) == Ok::<Seq<u8>, IndexError>(now.compression@)
        &&& now.compression@.len() == e.compression@.len()
        &&& now == (Entry { nid: now.nid, compression: now.compression, ..e })
    } else if states_address(e) {
        &&& now.data_union == e.data_union + shift
        &&& now == (Entry { nid: now.nid, data_union: now.data_union, ..e })
    } else {
        now == (Entry { nid: now.nid, ..e })
    }
}

/// True when `now` are the files with their inodes placed. A file that shares
/// an inode has the number of that inode.
pub open spec fn all_placed(
    before: Seq<Entry>,
    block_size: int,
    shared_len: int,
    n: int,
    now: Seq<Entry>,
) -> bool {
    let shift = data_shift(before, block_size, shared_len);
    &&& now.len() == before.len()
    &&& forall|i: int|
        0 <= i < before.len() && (#[trigger] before[i]).alias is None ==> if i < n {
            is_moved(before[i], place_of(before, block_size, i), block_size, shift, now[i])
        } else {
            now[i] == before[i]
        }
}

/// True when file `i` is one that shares an inode, and has its number.
pub open spec fn has_alias_nid(before: Seq<Entry>, now: Seq<Entry>, i: int) -> bool {
    before[i].alias matches Some(j) ==> now[i] == (Entry { nid: now[j as int].nid, ..before[i] })
}

/// True when all inodes are placed, and shared ones are known where they are
/// used.
pub open spec fn places_all(before: Seq<Entry>, block_size: int, shared_len: int, now: Seq<Entry>) -> bool {
    &&& all_placed(before, block_size, shared_len, before.len() as int, now)
    &&& forall|i: int| 0 <= i < before.len() ==> #[trigger] has_alias_nid(before, now, i)
}

/// True when placing the inodes fails with the error.
pub open spec fn is_place_error(before: Seq<Entry>, block_size: int, shared_len: int, error: ImageError) -> bool {
    let requests = requests_of(before, before.len() as int);
    let shift = data_shift(before, block_size, shared_len);
    match error {
        ImageError::MetadataOverflow => exists|n: int|
            0 <= n < requests.len() && #[trigger] slots::slots(requests, block_size, n).end
                + requests[n].size() + 2 * block_size > u64::MAX,
        ImageError::AddressOverflow => {
            ||| shift > u32::MAX
            ||| shared_len > 0 && shared_start(before, block_size) / block_size > u32::MAX
            ||| exists|i: int|
                0 <= i < before.len() && (#[trigger] before[i]).alias is None && states_address(
                    before[i],
                ) && before[i].data_union + shift > u32::MAX
        },
        ImageError::Index(inner) => exists|i: int|
            0 <= i < before.len() && (#[trigger] before[i]).alias is None && layout::is_compressed(
                before[i].layout,
            ) && indexes::relocated(
                before[i].compression@,
                before[i].inode_size + before[i].xattrs@.len(),
                indexes::block_count(before[i].size as int, block_size),
                before[i].layout == EROFS_INODE_COMPRESSED_COMPACT,
                shift,
            ) == Err::<Seq<u8>, IndexError>(inner),
        _ => false,
    }
}

proof fn lemma_requests(entries: Seq<Entry>, n: int, i: int)
    requires
        0 <= i < n <= entries.len(),
        entries[i].alias is None,
    ensures
        requests_of(entries, n).len() == inode::inode_count(entries, n),
        inode::inode_count(entries, i) < inode::inode_count(entries, n),
        requests_of(entries, n)[inode::inode_count(entries, i) as int] == request_of(entries[i]),
    decreases n,
{
    if i == n - 1 {
        lemma_request_count(entries, n - 1);
    } else {
        lemma_requests(entries, n - 1, i);
    }
}

proof fn lemma_request_count(entries: Seq<Entry>, n: int)
    requires
        0 <= n,
    ensures
        requests_of(entries, n).len() == inode::inode_count(entries, n),
    decreases n,
{
    if n > 0 {
        lemma_request_count(entries, n - 1);
    }
}

/// Different inodes have different numbers in the order of files.
proof fn lemma_count_grows(entries: Seq<Entry>, i: int, j: int)
    requires
        0 <= i < j <= entries.len(),
        entries[i].alias is None,
    ensures
        inode::inode_count(entries, i) < inode::inode_count(entries, j),
    decreases j,
{
    if i < j - 1 {
        lemma_count_grows(entries, i, j - 1);
    }
}

/// The bodies of staged inodes have a length that can be stated.
proof fn lemma_body(e: Entry, block_size: int, epoch: u64)
    requires
        compression::is_block_size(block_size),
        is_staged_inode(e, block_size, epoch),
    ensures
        32 <= e.body_len(),
        e.inode_size + e.xattrs@.len() + e.inline@.len() + e.compression@.len() + 8 <= u64::MAX,
        e.body_len() <= u64::MAX,
        e.inode_size + e.xattrs@.len() + 16 <= usize::MAX,
{
    layout::lemma_rounded(e.inode_size + e.xattrs@.len(), 8);
    if is_flat_inode(e, block_size) {
        lemma_inline(e, block_size);
        assert(!layout::is_compressed(e.layout));
    } else {
        let total = indexes::block_count(e.size as int, block_size);
        let header = e.inode_size + e.xattrs@.len();
        let n = e.size as int + block_size - 1;
        assert(0 <= n / block_size <= n / 512) by (nonlinear_arith)
            requires
                n >= 0,
                block_size >= 512,
        ;
        indexes::lemma_packs_len(total, header, 0);
    }
    assert(e.compression.len() <= usize::MAX);
}

fn collect_requests(entries: &Vec<Entry>, block_size: u32, epoch: Ghost<u64>) -> (requests: Vec<
    SlotRequest,
>)
    requires
        compression::is_block_size(block_size as int),
        forall|i: int|
            0 <= i < entries@.len() && (#[trigger] entries@[i]).alias is None ==> is_staged_inode(
                entries@[i],
                block_size as int,
                epoch@,
            ),
    ensures
        requests@ == requests_of(entries@, entries@.len() as int),
        forall|i: int| 0 <= i < requests@.len() ==> (#[trigger] requests@[i]).body > 0,
{
    let mut requests: Vec<SlotRequest> = Vec::new();
    let mut n: usize = 0;
    while n < entries.len()
        invariant
            n <= entries@.len(),
            compression::is_block_size(block_size as int),
            forall|i: int|
                0 <= i < entries@.len() && (#[trigger] entries@[i]).alias is None
                    ==> is_staged_inode(entries@[i], block_size as int, epoch@),
            requests@ == requests_of(entries@, n as int),
            forall|i: int| 0 <= i < requests@.len() ==> (#[trigger] requests@[i]).body > 0,
        decreases entries@.len() - n,
    {
        let e = &entries[n];
        if e.alias.is_none() {
            proof {
                lemma_body(*e, block_size as int, epoch@);
            }
            requests.push(
                SlotRequest { body: e.body_size(), inline: e.layout == EROFS_INODE_FLAT_INLINE },
            );
        }
        n += 1;
    }
    requests
}

/// The places of inodes lie in the metadata area, and no two share a byte.
pub open spec fn are_apart(entries: Seq<Entry>, start: int, end: int) -> bool {
    &&& forall|i: int|
        0 <= i < entries.len() && (#[trigger] entries[i]).alias is None ==> start <= 32
            * entries[i].nid && 32 * entries[i].nid + entries[i].body_len() <= end
    &&& forall|i: int, j: int|
        0 <= i < entries.len() && 0 <= j < entries.len() && i != j && (
        #[trigger] entries[i]).alias is None && (#[trigger] entries[j]).alias is None
            ==> slots::disjoint(
            32 * entries[i].nid,
            entries[i].body_len(),
            32 * entries[j].nid,
            entries[j].body_len(),
        )
}

/// Inodes that are placed are apart from one another.
proof fn lemma_apart(before: Seq<Entry>, block_size: int, shared_len: int, epoch: u64, now: Seq<Entry>)
    requires
        compression::is_block_size(block_size),
        all_placed(before, block_size, shared_len, before.len() as int, now),
        forall|i: int|
            0 <= i < before.len() ==> (#[trigger] now[i]).alias == before[i].alias,
        forall|i: int|
            0 <= i < before.len() && (#[trigger] before[i]).alias is None ==> is_staged_inode(
                before[i],
                block_size,
                epoch,
            ),
    ensures
        are_apart(
            now,
            METADATA_START as int,
            METADATA_START + area_of(before, block_size).end,
        ),
{
    let n = before.len() as int;
    let requests = requests_of(before, n);
    assert forall|i: int| 0 <= i < requests.len() implies (#[trigger] requests[i]).body > 0 by {
        lemma_requests_positive(before, block_size, epoch, n);
    }
    slots::law_inodes_have_their_own_slots(requests, block_size);
    let s = slots::slots(requests, block_size, requests.len() as int);
    assert forall|i: int| 0 <= i < n && (#[trigger] now[i]).alias is None implies {
        let k = inode::inode_count(before, i) as int;
        &&& 0 <= k < requests.len()
        &&& 32 * now[i].nid == METADATA_START + s.offsets[k]
        &&& now[i].body_len() == requests[k].body
        &&& METADATA_START <= 32 * now[i].nid
        &&& 32 * now[i].nid + now[i].body_len() <= METADATA_START + s.end
    } by {
        let e = before[i];
        assert(e.alias is None);
        lemma_requests(before, n, i);
        lemma_request_count(before, n);
        lemma_body(e, block_size, epoch);
        let k = inode::inode_count(before, i) as int;
        assert(s.offsets[k] % 32 == 0);
        assert(is_moved(
            e,
            place_of(before, block_size, i),
            block_size,
            data_shift(before, block_size, shared_len),
            now[i],
        ));
    }
    assert forall|i: int, j: int|
        0 <= i < n && 0 <= j < n && i != j && (#[trigger] now[i]).alias is None && (
        #[trigger] now[j]).alias is None implies slots::disjoint(
        32 * now[i].nid,
        now[i].body_len(),
        32 * now[j].nid,
        now[j].body_len(),
    ) by {
        let k = inode::inode_count(before, i) as int;
        let l = inode::inode_count(before, j) as int;
        if i < j {
            lemma_count_grows(before, i, j);
        } else {
            lemma_count_grows(before, j, i);
        }
        assert(slots::disjoint(
            s.offsets[k],
            requests[k].body as int,
            s.offsets[l],
            requests[l].body as int,
        ));
    }
}

proof fn lemma_requests_positive(entries: Seq<Entry>, block_size: int, epoch: u64, n: int)
    requires
        compression::is_block_size(block_size),
        0 <= n <= entries.len(),
        forall|i: int|
            0 <= i < entries.len() && (#[trigger] entries[i]).alias is None ==> is_staged_inode(
                entries[i],
                block_size,
                epoch,
            ),
    ensures
        forall|i: int|
            0 <= i < requests_of(entries, n).len() ==> (#[trigger] requests_of(
                entries,
                n,
            )[i]).body > 0,
    decreases n,
{
    if n > 0 {
        lemma_requests_positive(entries, block_size, epoch, n - 1);
        if entries[n - 1].alias is None {
            lemma_body(entries[n - 1], block_size, epoch);
        }
        let earlier = requests_of(entries, n - 1);
        let all = requests_of(entries, n);
        assert forall|i: int| 0 <= i < all.len() implies (#[trigger] all[i]).body > 0 by {
            if i < earlier.len() {
                assert(all[i] == earlier[i]);
            }
        }
    }
}

/// The metadata area has some length, or none.
pub(crate) proof fn lemma_area(entries: Seq<Entry>, block_size: int, epoch: u64)
    requires
        compression::is_block_size(block_size),
        forall|i: int|
            0 <= i < entries.len() && (#[trigger] entries[i]).alias is None ==> is_staged_inode(
                entries[i],
                block_size,
                epoch,
            ),
    ensures
        area_of(entries, block_size).end >= 0,
{
    let requests = requests_of(entries, entries.len() as int);
    lemma_requests_positive(entries, block_size, epoch, entries.len() as int);
    slots::law_inodes_have_their_own_slots(requests, block_size);
    if requests.len() > 0 {
        assert(area_of(entries, block_size).offsets[0] >= 0);
    }
}

/// Places one inode, and moves the addresses of its data.
fn place_entry(e: &mut Entry, offset: u64, block_size: u32, shift: u32, epoch: Ghost<u64>) -> (done:
    Result<(), ImageError>)
    requires
        compression::is_block_size(block_size as int),
        is_staged_inode(*old(e), block_size as int, epoch@),
        offset + METADATA_START <= u64::MAX,
    ensures
        match done {
            Ok(()) => is_moved(
                *old(e),
                METADATA_START + offset,
                block_size as int,
                shift as int,
                *final(e),
            ),
            Err(ImageError::AddressOverflow) => states_address(*old(e)) && old(e).data_union + shift
                > u32::MAX,
            Err(ImageError::Index(inner)) => layout::is_compressed(old(e).layout)
                && indexes::relocated(
                old(e).compression@,
                old(e).inode_size + old(e).xattrs@.len(),
                indexes::block_count(old(e).size as int, block_size as int),
                old(e).layout == EROFS_INODE_COMPRESSED_COMPACT,
                shift as int,
            ) == Err::<Seq<u8>, IndexError>(inner),
            Err(_) => false,
        },
{
    proof {
        lemma_body(*e, block_size as int, epoch@);
    }
    let ghost first = *e;
    e.nid = (METADATA_START + offset) / 32;
    if layout::erofs_inode_is_data_compressed(e.layout) {
        assert(is_compressed_inode(first, block_size as int));
        let size: usize = e.size as usize;
        let unit: usize = block_size as usize;
        let over: usize = if size % unit == 0 {
            0
        } else {
            1
        };
        assert(size / unit <= size / 512) by (nonlinear_arith)
            requires
                unit >= 512,
        ;
        let total: usize = size / unit + over;
        let header: usize = e.inode_size + e.xattrs.len();
        let compact = e.layout == EROFS_INODE_COMPRESSED_COMPACT;
        proof {
            lemma_count(size as int, unit as int);
            indexes::lemma_packs_len(total as int, header as int, 0);
        }
        if let Err(error) = indexes::relocate_indexes(
            &mut e.compression,
            header,
            total,
            compact,
            shift,
        ) {
            return Err(ImageError::Index(error));
        }
        return Ok(());
    }
    if (layout::s_isreg(e.metadata.mode) || layout::s_islnk(e.metadata.mode)) && e.data_union
        != u32::MAX {
        match e.data_union.checked_add(shift) {
            Some(address) => {
                e.data_union = address;
            },
            None => {
                return Err(ImageError::AddressOverflow);
            },
        }
    }
    Ok(())
}

proof fn lemma_count(n: int, b: int)
    requires
        0 <= n,
        compression::is_block_size(b),
    ensures
        indexes::block_count(n, b) == n / b + if n % b == 0 {
            0int
        } else {
            1
        },
{
    stage::lemma_padding(n, b);
    compression::lemma_in_blocks(n, b);
    vstd::arithmetic::div_mod::lemma_fundamental_div_mod(n, b);
    let q = n / b;
    let r = n % b;
    if r == 0 {
        vstd::arithmetic::div_mod::lemma_fundamental_div_mod_converse(n + b - 1, b, q, b - 1);
    } else {
        assert(n + b - 1 == b * (q + 1) + (r - 1)) by (nonlinear_arith)
            requires
                n == b * q + r,
        ;
        vstd::arithmetic::div_mod::lemma_fundamental_div_mod_converse(n + b - 1, b, q + 1, r - 1);
    }
}

proof fn lemma_limit(n: int, b: int)
    requires
        compression::is_block_size(b),
        n > ADDRESS_LIMIT,
    ensures
        n / b > u32::MAX,
{
    assert(n / b >= n / 4096) by (nonlinear_arith)
        requires
            512 <= b <= 4096,
            n >= 0,
    ;
}

/// The areas before the data are whole blocks, and grow with what they hold.
pub(crate) proof fn lemma_areas(entries: Seq<Entry>, block_size: int, shared_len: int)
    requires
        compression::is_block_size(block_size),
        area_of(entries, block_size).end >= 0,
        shared_len >= 0,
    ensures
        shared_start(entries, block_size) >= METADATA_START + area_of(entries, block_size).end,
        shared_start(entries, block_size) % block_size == 0,
        data_start(entries, block_size, shared_len) >= shared_start(entries, block_size)
            + shared_len,
        data_start(entries, block_size, shared_len) % block_size == 0,
        data_start(entries, block_size, shared_len) == METADATA_START + data_shift(
            entries,
            block_size,
            shared_len,
        ) * block_size,
        data_shift(entries, block_size, shared_len) >= 0,
{
    let a = layout::rounded(area_of(entries, block_size).end, block_size);
    let b = layout::rounded(shared_len, block_size);
    layout::lemma_rounded(area_of(entries, block_size).end, block_size);
    layout::lemma_rounded(shared_len, block_size);
    assert(METADATA_START as int % block_size == 0);
    vstd::arithmetic::div_mod::lemma_add_mod_noop(METADATA_START as int, a, block_size);
    vstd::arithmetic::div_mod::lemma_add_mod_noop(a, b, block_size);
    vstd::arithmetic::div_mod::lemma_add_mod_noop(METADATA_START + a, b, block_size);
    vstd::arithmetic::div_mod::lemma_small_mod(0, block_size as nat);
    vstd::arithmetic::div_mod::lemma_fundamental_div_mod(a + b, block_size);
    vstd::arithmetic::mul::lemma_mul_is_commutative((a + b) / block_size, block_size);
    vstd::arithmetic::div_mod::lemma_div_pos_is_pos(a + b, block_size);
}

/// Places the inodes of all files, and moves the addresses of their data
/// behind them. Gives the start of the shared attributes and that of the data.
fn place_entries(
    entries: &mut Vec<Entry>,
    block_size: u32,
    shared_len: usize,
    epoch: Ghost<u64>,
) -> (placed: Result<(u64, u64), ImageError>)
    requires
        compression::is_block_size(block_size as int),
        forall|i: int|
            0 <= i < old(entries)@.len() && (#[trigger] old(entries)@[i]).alias is None
                ==> is_staged_inode(old(entries)@[i], block_size as int, epoch@),
        forall|i: int|
            0 <= i < old(entries)@.len() ==> ((#[trigger] old(entries)@[i]).alias matches Some(j)
                ==> j < old(entries)@.len() && old(entries)@[j as int].alias is None),
    ensures
        match placed {
            Ok((shared, data)) => {
                &&& places_all(old(entries)@, block_size as int, shared_len as int, final(entries)@)
                &&& shared == shared_start(old(entries)@, block_size as int)
                &&& data == data_start(old(entries)@, block_size as int, shared_len as int)
                &&& data_shift(old(entries)@, block_size as int, shared_len as int) <= u32::MAX
                &&& shared_len > 0 ==> shared / block_size as u64 <= u32::MAX
                &&& area_of(old(entries)@, block_size as int).end >= 0
            },
            Err(error) => is_place_error(
                old(entries)@,
                block_size as int,
                shared_len as int,
                error,
            ),
        },
{
    let ghost before = entries@;
    let ghost b = block_size as int;
    let ghost l = shared_len as int;
    let requests = collect_requests(entries, block_size, epoch);
    let (offsets, end) = match slots::assign_slots(&requests, block_size as u64) {
        Ok(assigned) => assigned,
        Err(_) => {
            return Err(ImageError::MetadataOverflow);
        },
    };
    proof {
        slots::law_inodes_have_their_own_slots(requests@, b);
        lemma_areas(before, b, l);
        layout::lemma_rounded(end as int, b);
        layout::lemma_rounded(l, b);
    }
    if end > ADDRESS_LIMIT || shared_len as u64 > ADDRESS_LIMIT {
        proof {
            lemma_limit(data_start(before, b, l) - METADATA_START, b);
        }
        return Err(ImageError::AddressOverflow);
    }
    let shared: u64 = METADATA_START + layout::round_up(end, block_size as u64);
    let data: u64 = shared + layout::round_up(shared_len as u64, block_size as u64);
    let moved: u64 = (data - METADATA_START) / block_size as u64;
    if moved > 0xffff_ffff || (shared_len > 0 && shared / block_size as u64 > 0xffff_ffff) {
        return Err(ImageError::AddressOverflow);
    }
    let shift: u32 = moved as u32;
    let ghost state = area_of(before, b);
    let mut slot: usize = 0;
    let mut n: usize = 0;
    while n < entries.len()
        invariant
            n <= entries@.len(),
            before == old(entries)@,
            b == block_size,
            l == shared_len,
            compression::is_block_size(b),
            forall|i: int|
                0 <= i < before.len() && (#[trigger] before[i]).alias is None ==> is_staged_inode(
                    before[i],
                    b,
                    epoch@,
                ),
            all_placed(before, b, l, n as int, entries@),
            forall|i: int|
                0 <= i < before.len() && (#[trigger] before[i]).alias is Some ==> entries@[i]
                    == before[i],
            shift == data_shift(before, b, l),
            state == area_of(before, b),
            state.offsets.len() == requests@.len(),
            requests@ == requests_of(before, before.len() as int),
            offsets@.map_values(|o: u64| o as int) == state.offsets,
            forall|i: int|
                0 <= i < state.offsets.len() ==> 0 <= (#[trigger] state.offsets[i]) <= state.end,
            state.end <= ADDRESS_LIMIT,
            slot == inode::inode_count(before, n as int),
        decreases entries@.len() - n,
    {
        let ghost current = entries@;
        assert(before[n as int] == before[n as int]);
        if entries[n].alias.is_none() {
            assert(current[n as int] == before[n as int]);
            proof {
                lemma_requests(before, before.len() as int, n as int);
            }
            assert(offsets@.map_values(|o: u64| o as int)[slot as int] == offsets@[slot as int]);
            assert(offsets@[slot as int] <= ADDRESS_LIMIT);
            if let Err(error) = place_entry(
                &mut entries[n],
                offsets[slot],
                block_size,
                shift,
                epoch,
            ) {
                assert(before[n as int].alias is None);
                return Err(error);
            }
            assert(offsets.len() <= usize::MAX);
            slot += 1;
            assert(is_moved(
                before[n as int],
                place_of(before, b, n as int),
                b,
                shift as int,
                entries@[n as int],
            ));
        }
        proof {
            assert forall|i: int|
                0 <= i < before.len() && (#[trigger] before[i]).alias is None implies if i < n + 1 {
                is_moved(before[i], place_of(before, b, i), b, shift as int, entries@[i])
            } else {
                entries@[i] == before[i]
            } by {
                if i != n {
                    assert(entries@[i] == current[i]);
                }
            }
            assert forall|i: int|
                0 <= i < before.len() && (#[trigger] before[i]).alias is Some implies entries@[i]
                == before[i] by {
                assert(entries@[i] == current[i]);
            }
        }
        n += 1;
    }
    let ghost inodes = entries@;
    let mut m: usize = 0;
    while m < entries.len()
        invariant
            m <= entries@.len(),
            before == old(entries)@,
            inodes.len() == before.len(),
            entries@.len() == before.len(),
            forall|i: int|
                0 <= i < before.len() ==> ((#[trigger] before[i]).alias matches Some(j) ==> j
                    < before.len() && before[j as int].alias is None),
            forall|i: int| 0 <= i < before.len() ==> (#[trigger] inodes[i]).alias == before[i].alias,
            forall|i: int|
                0 <= i < before.len() && (#[trigger] before[i]).alias is Some ==> inodes[i]
                    == before[i],
            forall|i: int|
                0 <= i < before.len() && (before[i].alias is None || i >= m) ==> #[trigger] entries@[i]
                    == inodes[i],
            forall|i: int| 0 <= i < m ==> #[trigger] has_alias_nid(before, entries@, i),
        decreases entries@.len() - m,
    {
        let ghost current = entries@;
        assert(before[m as int].alias == inodes[m as int].alias);
        assert(current[m as int] == inodes[m as int]);
        if let Some(target) = entries[m].alias {
            assert(before[target as int].alias is None);
            let nid: u64 = entries[target].nid;
            entries[m].nid = nid;
            assert(entries@[target as int] == inodes[target as int]);
        }
        proof {
            assert forall|i: int| 0 <= i < m + 1 implies #[trigger] has_alias_nid(
                before,
                entries@,
                i,
            ) by {
                if i < m {
                    assert(has_alias_nid(before, current, i));
                    assert(entries@[i] == current[i]);
                    if let Some(j) = before[i].alias {
                        assert(before[j as int].alias is None);
                        assert(entries@[j as int] == inodes[j as int]);
                        assert(current[j as int] == inodes[j as int]);
                    }
                } else {
                    assert(before[m as int].alias is Some ==> inodes[m as int] == before[m as int]);
                }
            }
        }
        m += 1;
    }
    proof {
        assert forall|i: int|
            0 <= i < before.len() && (#[trigger] before[i]).alias is None implies is_moved(
            before[i],
            place_of(before, b, i),
            b,
            shift as int,
            entries@[i],
        ) by {
            assert(entries@[i] == inodes[i]);
        }
    }
    Ok((shared, data))
}

// ---------------------------------------------------------------------------
// Directories
// ---------------------------------------------------------------------------

/// The data of a directory.
pub open spec fn listing_data(entries: Seq<Entry>, block_size: int, i: int) -> Seq<u8> {
    directory::data_from(directory::sorted(prepare::listing(entries, i)), block_size, 0)
}

/// True when directory `i` is stored at `start`, behind the ones before it.
pub open spec fn is_listed_at(
    before: Seq<Entry>,
    block_size: int,
    start: int,
    now: Seq<Entry>,
    pieces: Seq<Seq<u8>>,
    i: int,
) -> bool {
    if layout::is_dir(before[i].metadata.mode) {
        stage::is_flat(
            before[i],
            listing_data(before, block_size, i),
            start + joined(pieces, i).len(),
            block_size,
            now[i],
            pieces[i],
        )
    } else {
        now[i] == before[i] && pieces[i].len() == 0
    }
}

/// True when the directories among the first `n` files are stored from `start`
/// on, and the other files are as before.
pub open spec fn all_listed(
    before: Seq<Entry>,
    block_size: int,
    start: int,
    n: int,
    now: Seq<Entry>,
    pieces: Seq<Seq<u8>>,
) -> bool {
    &&& now.len() == before.len()
    &&& pieces.len() == n
    &&& forall|i: int|
        0 <= i < n ==> #[trigger] is_listed_at(before, block_size, start, now, pieces, i)
    &&& forall|i: int| n <= i < before.len() ==> #[trigger] now[i] == before[i]
}

/// True when `data` is the data of all directories, and `now` are the files
/// with it.
pub open spec fn lists_all(
    before: Seq<Entry>,
    block_size: int,
    start: int,
    now: Seq<Entry>,
    data: Seq<u8>,
) -> bool {
    exists|pieces: Seq<Seq<u8>>|
        {
            &&& #[trigger] all_listed(before, block_size, start, before.len() as int, now, pieces)
            &&& data == joined(pieces, before.len() as int)
        }
}

/// True when storing directory `i` fails with the error.
pub open spec fn is_listing_error(
    before: Seq<Entry>,
    block_size: int,
    start: int,
    pieces: Seq<Seq<u8>>,
    i: int,
    error: ImageError,
) -> bool {
    let list = directory::sorted(prepare::listing(before, i));
    let position = start + joined(pieces, i).len();
    match error {
        ImageError::Directory(DirectoryError::EntryTooLong) => layout::is_dir(
            before[i].metadata.mode,
        ) && !directory::all_short(list, block_size),
        ImageError::Directory(DirectoryError::SizeOverflow) => layout::is_dir(
            before[i].metadata.mode,
        ) && directory::size_of(list, block_size, list.len() as int) + block_size > u64::MAX,
        ImageError::Stage(inner) => layout::is_dir(before[i].metadata.mode) && stage::flat_error(
            before[i],
            listing_data(before, block_size, i),
            position,
            block_size,
        ) == Some(inner),
        ImageError::AddressOverflow => joined(pieces, i).len() > ADDRESS_LIMIT,
        _ => false,
    }
}

/// True when storing some directory fails with the error.
pub open spec fn fails_to_list(before: Seq<Entry>, block_size: int, start: int, error: ImageError) -> bool {
    exists|i: int, now: Seq<Entry>, pieces: Seq<Seq<u8>>|
        {
            &&& 0 <= i < before.len()
            &&& #[trigger] all_listed(before, block_size, start, i, now, pieces)
            &&& is_listing_error(before, block_size, start, pieces, i, error)
        }
}

/// True when an inode differs from `e` only in its data.
pub open spec fn keeps_inode(e: Entry, now: Entry) -> bool {
    &&& now == (Entry { data_union: now.data_union, inline: now.inline, ..e })
    &&& now.inline@.len() == e.inline@.len()
}

pub(crate) proof fn lemma_listed(before: Seq<Entry>, block_size: int, start: int, n: int, now: Seq<Entry>, pieces: Seq<Seq<u8>>)
    requires
        compression::is_block_size(block_size),
        0 <= n <= before.len(),
        all_listed(before, block_size, start, n, now, pieces),
        forall|i: int|
            0 <= i < before.len() && layout::is_dir((#[trigger] before[i]).metadata.mode)
                ==> is_flat_inode(before[i], block_size),
    ensures
        forall|i: int| 0 <= i < before.len() ==> keeps_inode(before[i], #[trigger] now[i]),
        joined(pieces, n).len() % (block_size as nat) == 0,
{
    assert forall|i: int| 0 <= i < before.len() implies keeps_inode(before[i], #[trigger] now[i])
        && (i < n ==> pieces[i].len() % (block_size as nat) == 0) by {
        vstd::arithmetic::div_mod::lemma_small_mod(0, block_size as nat);
        if i < n {
            assert(is_listed_at(before, block_size, start, now, pieces, i));
            if layout::is_dir(before[i].metadata.mode) {
                let data = listing_data(before, block_size, i);
                assert(before[i].metadata.mode == before[i].metadata.mode);
                lemma_inline(before[i], block_size);
                let external = stage::external_len(before[i], data);
                compression::lemma_in_blocks(external, block_size);
            }
        }
    }
    assert forall|i: int| 0 <= i < n implies (#[trigger] pieces[i]).len() % (block_size as nat)
        == 0 by {
        assert(keeps_inode(before[i], now[i]));
    }
    lemma_joined_blocks(pieces, block_size, n);
}

pub(crate) proof fn lemma_same_listing(before: Seq<Entry>, now: Seq<Entry>, i: int)
    requires
        prepare::is_tree(before),
        now.len() == before.len(),
        forall|k: int| 0 <= k < before.len() ==> keeps_inode(before[k], #[trigger] now[k]),
        0 <= i < before.len(),
    ensures
        prepare::listing(now, i) == prepare::listing(before, i),
        prepare::is_tree(now),
{
    assert forall|k: int| 0 <= k < before.len() implies (#[trigger] now[k]).nid == before[k].nid
        && now[k].metadata == before[k].metadata && now[k].parent == before[k].parent
        && now[k].children == before[k].children && now[k].alias == before[k].alias by {
        assert(keeps_inode(before[k], now[k]));
    }
    prepare::lemma_listing(before, now, i);
}

/// Stores the directories from `start` on.
pub fn write_directories(entries: &mut Vec<Entry>, block_size: u32, start: u64) -> (written: Result<
    Vec<u8>,
    ImageError,
>)
    requires
        compression::is_block_size(block_size as int),
        prepare::is_tree(old(entries)@),
        forall|i: int|
            0 <= i < old(entries)@.len() && layout::is_dir(
                (#[trigger] old(entries)@[i]).metadata.mode,
            ) ==> is_flat_inode(old(entries)@[i], block_size as int),
        start <= 4 * ADDRESS_LIMIT,
    ensures
        match written {
            Ok(data) => lists_all(
                old(entries)@,
                block_size as int,
                start as int,
                final(entries)@,
                data@,
            ),
            Err(error) => fails_to_list(old(entries)@, block_size as int, start as int, error),
        },
{
    let ghost before = entries@;
    let ghost b = block_size as int;
    let mut data: Vec<u8> = Vec::new();
    let ghost mut pieces: Seq<Seq<u8>> = seq![];
    let mut n: usize = 0;
    while n < entries.len()
        invariant
            n <= entries@.len(),
            before == old(entries)@,
            b == block_size,
            compression::is_block_size(b),
            prepare::is_tree(before),
            forall|i: int|
                0 <= i < before.len() && layout::is_dir((#[trigger] before[i]).metadata.mode)
                    ==> is_flat_inode(before[i], b),
            start <= 4 * ADDRESS_LIMIT,
            all_listed(before, b, start as int, n as int, entries@, pieces),
            data@ == joined(pieces, n as int),
        decreases entries@.len() - n,
    {
        let ghost current = entries@;
        assert(current[n as int] == before[n as int]);
        let ghost mut piece: Seq<u8> = seq![];
        if layout::s_isdir(entries[n].metadata.mode) {
            proof {
                lemma_listed(before, b, start as int, n as int, current, pieces);
                lemma_same_listing(before, current, n as int);
                lemma_inline(before[n as int], b);
            }
            if data.len() as u64 > ADDRESS_LIMIT {
                assert(is_listing_error(
                    before,
                    b,
                    start as int,
                    pieces,
                    n as int,
                    ImageError::AddressOverflow,
                ));
                return Err(ImageError::AddressOverflow);
            }
            let list = prepare::directory_entries(entries, n);
            if let Err(error) = directory::directory_size(&list, block_size) {
                assert(is_listing_error(
                    before,
                    b,
                    start as int,
                    pieces,
                    n as int,
                    ImageError::Directory(error),
                ));
                return Err(ImageError::Directory(error));
            }
            let listed = directory::write_entries(&list, block_size);
            let position: u64 = start + data.len() as u64;
            match stage::write_flat_bytes(
                &mut entries[n],
                listed.as_slice(),
                position,
                block_size,
            ) {
                Ok(stored) => {
                    proof {
                        piece = stored@;
                    }
                    bytes::push_all(&mut data, stored.as_slice());
                },
                Err(error) => {
                    assert(is_listing_error(
                        before,
                        b,
                        start as int,
                        pieces,
                        n as int,
                        ImageError::Stage(error),
                    ));
                    return Err(ImageError::Stage(error));
                },
            }
        }
        proof {
            let next = pieces.push(piece);
            assert forall|i: int| 0 <= i <= n implies joined(next, i) == joined(pieces, i) by {
                lemma_joined_same(next, pieces, i);
            }
            assert(joined(next, n + 1) == joined(next, n as int) + piece);
            assert(data@ =~= joined(next, n + 1));
            assert forall|i: int| 0 <= i < n + 1 implies #[trigger] is_listed_at(
                before,
                b,
                start as int,
                entries@,
                next,
                i,
            ) by {
                if i < n {
                    assert(is_listed_at(before, b, start as int, current, pieces, i));
                    assert(entries@[i] == current[i]);
                }
            }
            pieces = next;
        }
        n += 1;
    }
    assert(all_listed(before, b, start as int, n as int, entries@, pieces));
    Ok(data)
}

// ---------------------------------------------------------------------------
// The metadata area
// ---------------------------------------------------------------------------

/// The body of the inode of file `i`.
pub open spec fn body_of(entries: Seq<Entry>, epoch: u64, i: int) -> Seq<u8> {
    inode::body_bytes(entries[i], i + 1, epoch)
}

/// True when byte `k` of the image belongs to an inode.
pub open spec fn in_inode(entries: Seq<Entry>, k: int) -> bool {
    exists|i: int|
        0 <= i < entries.len() && (#[trigger] entries[i]).alias is None && 32 * entries[i].nid <= k
            < 32 * entries[i].nid + entries[i].body_len()
}

/// True when the inodes of the first `n` files stand at their places, and the
/// other bytes behind the superblock are zero.
pub open spec fn holds_inodes(area: Seq<u8>, entries: Seq<Entry>, epoch: u64, n: int) -> bool {
    &&& forall|i: int|
        0 <= i < n && (#[trigger] entries[i]).alias is None ==> bytes::stands_at(
            area,
            32 * entries[i].nid,
            body_of(entries, epoch, i),
        )
    &&& forall|k: int|
        0 <= k < area.len() && !in_inode(entries, k) ==> #[trigger] area[k] == 0
}

/// True when `head` is what stands before the data of an image: the
/// superblock, the inodes, the shared attributes, and zeros elsewhere.
pub open spec fn is_head(
    head: Seq<u8>,
    initial: Seq<u8>,
    entries: Seq<Entry>,
    epoch: u64,
    shared: Seq<u8>,
    shared_at: int,
    size: int,
) -> bool {
    &&& head.len() == size
    &&& head.take(METADATA_START as int) == initial
    &&& forall|i: int|
        0 <= i < entries.len() && (#[trigger] entries[i]).alias is None ==> bytes::stands_at(
            head,
            32 * entries[i].nid,
            body_of(entries, epoch, i),
        )
    &&& bytes::stands_at(head, shared_at, shared)
    &&& forall|k: int|
        METADATA_START <= k < size && !in_inode(entries, k) && !(shared_at <= k < shared_at
            + shared.len()) ==> #[trigger] head[k] == 0
}

proof fn lemma_patched(s: Seq<u8>, at: int, patch: Seq<u8>, from: int, other: Seq<u8>)
    requires
        0 <= at,
        at + patch.len() <= s.len(),
        slots::disjoint(at, patch.len() as int, from, other.len() as int),
        bytes::stands_at(s, from, other),
    ensures
        bytes::stands_at(bytes::patched(s, at, patch), from, other),
{
    let now = bytes::patched(s, at, patch);
    assert(now.subrange(from, from + other.len()) =~= s.subrange(from, from + other.len()));
}

/// Writes the inodes to their places.
fn write_inodes(entries: &Vec<Entry>, epoch: u64, block_size: u32, size: usize) -> (area: Result<
    Vec<u8>,
    ImageError,
>)
    requires
        compression::is_block_size(block_size as int),
        are_apart(entries@, METADATA_START as int, size as int),
        forall|i: int|
            0 <= i < entries@.len() && (#[trigger] entries@[i]).alias is None ==> is_staged_inode(
                entries@[i],
                block_size as int,
                epoch,
            ),
    ensures
        match area {
            Ok(data) => {
                &&& data@.len() == size
                &&& holds_inodes(data@, entries@, epoch, entries@.len() as int)
            },
            Err(error) => error == ImageError::TooManyInodes && entries@.len() > u32::MAX,
        },
{
    let mut area: Vec<u8> = Vec::new();
    bytes::push_filled(&mut area, 0, size);
    let mut n: usize = 0;
    while n < entries.len()
        invariant
            n <= entries@.len(),
            area@.len() == size,
            compression::is_block_size(block_size as int),
            are_apart(entries@, METADATA_START as int, size as int),
            forall|i: int|
                0 <= i < entries@.len() && (#[trigger] entries@[i]).alias is None
                    ==> is_staged_inode(entries@[i], block_size as int, epoch),
            holds_inodes(area@, entries@, epoch, n as int),
        decreases entries@.len() - n,
    {
        let e = &entries[n];
        if e.alias.is_none() {
            if n >= 0xffff_ffff {
                return Err(ImageError::TooManyInodes);
            }
            assert(inode::is_inode(entries@[n as int], epoch));
            let body = inode::encode_body(e, n as u32 + 1, epoch);
            proof {
                inode::lemma_body_len(*e, n + 1, epoch);
            }
            let ghost before = area@;
            let at: usize = (e.nid * 32) as usize;
            bytes::overwrite(&mut area, at, body.as_slice());
            proof {
                assert forall|i: int|
                    0 <= i < n + 1 && (#[trigger] entries@[i]).alias is None implies bytes::stands_at(
                    area@,
                    32 * entries@[i].nid,
                    body_of(entries@, epoch, i),
                ) by {
                    if i < n {
                        inode::lemma_body_len(entries@[i], i + 1, epoch);
                        lemma_patched(
                            before,
                            at as int,
                            body@,
                            32 * entries@[i].nid,
                            body_of(entries@, epoch, i),
                        );
                    } else {
                        assert(area@.subrange(at as int, at + body@.len()) =~= body@);
                    }
                }
                assert forall|k: int|
                    0 <= k < area@.len() && !in_inode(entries@, k) implies #[trigger] area@[k]
                    == 0 by {
                    assert(!(at <= k < at + body@.len()));
                    assert(area@[k] == before[k]);
                }
            }
        }
        n += 1;
    }
    Ok(area)
}

// ---------------------------------------------------------------------------
// The whole image
// ---------------------------------------------------------------------------

/// The steps that lead to an image: the files with their data stored, and with
/// their inodes placed, and what was stored of each file and each directory.
pub struct Steps {
    pub staged: Seq<Entry>,
    pub pieces: Seq<Seq<u8>>,
    pub placed: Seq<Entry>,
    pub listings: Seq<Seq<u8>>,
}

/// The time that an image is said to be built at.
pub open spec fn time_of(options: BuildOptions, current_time: u64) -> u64 {
    match options.timestamp {
        Some(time) => time,
        None => current_time,
    }
}

/// The superblock of an image of `size` bytes.
pub open spec fn final_superblock(
    now: Seq<Entry>,
    options: BuildOptions,
    epoch: u64,
    build_time: u64,
    shared_len: int,
    shared_at: int,
    size: int,
) -> inode::Superblock {
    inode::superblock_of(
        now,
        options,
        epoch,
        build_time,
        0,
        if shared_len == 0 {
            0
        } else {
            shared_at / options.block_size as int
        },
        size / options.block_size as int,
    )
}

/// True when `image` is what the steps lead to.
pub open spec fn is_image<F: Fn(&[u8], usize) -> Option<(usize, Vec<u8>)>>(
    lz4: F,
    before: Seq<Entry>,
    contents: Seq<Vec<u8>>,
    options: BuildOptions,
    epoch: u64,
    current_time: u64,
    shared: Seq<u8>,
    steps: Steps,
    now: Seq<Entry>,
    image: Seq<u8>,
) -> bool {
    let n = before.len() as int;
    let block_size = options.block_size as int;
    let shared_len = shared.len() as int;
    let shared_at = shared_start(steps.staged, block_size);
    let start = data_start(steps.staged, block_size, shared_len);
    let data = joined(steps.pieces, n);
    let directories = joined(steps.listings, n);
    &&& all_stored(lz4, before, contents, options, n, steps.staged, steps.pieces)
    &&& places_all(steps.staged, block_size, shared_len, steps.placed)
    &&& all_listed(steps.placed, block_size, start + data.len(), n, now, steps.listings)
    &&& image.len() == start + data.len() + directories.len()
    &&& image.skip(start) == data + directories
    &&& image.len() as int % block_size == 0
    &&& image.len() as int / block_size <= u32::MAX
    &&& now[0].nid <= 0xffff
    &&& now.len() <= u64::MAX
    &&& inode::has_digest(options.uuid, now, epoch)
    &&& is_head(
        image.take(start),
        inode::initial_area(
            final_superblock(
                now,
                options,
                epoch,
                time_of(options, current_time),
                shared_len,
                shared_at,
                image.len() as int,
            ),
        ),
        now,
        epoch,
        shared,
        shared_at,
        start,
    )
}

/// True when `image` is an image of the files, and the report says what it
/// holds.
pub open spec fn builds_to<F: Fn(&[u8], usize) -> Option<(usize, Vec<u8>)>>(
    lz4: F,
    before: Seq<Entry>,
    contents: Seq<Vec<u8>>,
    options: BuildOptions,
    epoch: u64,
    current_time: u64,
    shared: Seq<u8>,
    now: Seq<Entry>,
    image: Seq<u8>,
    report: BuildReport,
) -> bool {
    exists|steps: Steps|
        {
            &&& #[trigger] is_image(
                lz4,
                before,
                contents,
                options,
                epoch,
                current_time,
                shared,
                steps,
                now,
                image,
            )
            &&& reports(steps.staged, before.len() as int, report)
            &&& report.image_bytes == image.len()
        }
}

/// True when writing the directories and the metadata fails with the error.
pub open spec fn is_late_error(placed: Seq<Entry>, block_size: int, start: int, error: ImageError) -> bool {
    ||| fails_to_list(placed, block_size, start, error)
    ||| error == ImageError::TooManyInodes && placed.len() > u32::MAX
    ||| error == ImageError::RootTooFar && placed[0].nid > 0xffff
    ||| error == ImageError::AddressOverflow && exists|now: Seq<Entry>, data: Seq<u8>|
        #[trigger] lists_all(placed, block_size, start, now, data) && (start + data.len())
            / block_size > u32::MAX
}

/// True when placing the stored files or what follows fails with the error.
pub open spec fn is_middle_error(
    staged: Seq<Entry>,
    data_len: int,
    block_size: int,
    shared_len: int,
    error: ImageError,
) -> bool {
    let start = data_start(staged, block_size, shared_len);
    ||| is_place_error(staged, block_size, shared_len, error)
    ||| error == ImageError::TooLarge && start > usize::MAX
    ||| error == ImageError::AddressOverflow && data_len > ADDRESS_LIMIT
    ||| exists|placed: Seq<Entry>|
        #[trigger] places_all(staged, block_size, shared_len, placed) && is_late_error(
            placed,
            block_size,
            start + data_len,
            error,
        )
}

/// True when writing the image may fail with the error.
pub open spec fn is_build_error<F: Fn(&[u8], usize) -> Option<(usize, Vec<u8>)>>(
    lz4: F,
    before: Seq<Entry>,
    contents: Seq<Vec<u8>>,
    options: BuildOptions,
    shared_len: int,
    error: ImageError,
) -> bool {
    ||| is_staging_error(lz4, before, contents, options, error)
    ||| exists|staged: Seq<Entry>, data: Seq<u8>|
        #[trigger] stores_all(lz4, before, contents, options, staged, data) && is_middle_error(
            staged,
            data.len() as int,
            options.block_size as int,
            shared_len,
            error,
        )
}

/// True when the files can be written to an image: each has a prepared inode or
/// shares that of another file.
pub open spec fn is_buildable(entries: Seq<Entry>, block_size: int, epoch: u64) -> bool {
    &&& entries.len() > 0
    &&& prepare::is_tree(entries)
    &&& forall|i: int|
        0 <= i < entries.len() ==> match (#[trigger] entries[i]).alias {
            Some(j) => entries[j as int].alias is None && !layout::is_dir(entries[i].metadata.mode),
            None => is_ready(entries[i], block_size, epoch),
        }
}

proof fn lemma_moved_inode(e: Entry, at: int, block_size: int, shift: int, epoch: u64, now: Entry)
    requires
        is_staged_inode(e, block_size, epoch),
        is_moved(e, at, block_size, shift, now),
    ensures
        is_staged_inode(now, block_size, epoch),
        now.metadata == e.metadata,
        now.alias == e.alias,
        now.parent == e.parent,
        now.children == e.children,
        now.body_len() == e.body_len(),
        now.layout == e.layout,
        now.inline == e.inline,
        now.size == e.size,
{
}

/// What placing inodes keeps of the files.
pub(crate) proof fn lemma_placed(
    before: Seq<Entry>,
    block_size: int,
    shared_len: int,
    epoch: u64,
    now: Seq<Entry>,
)
    requires
        compression::is_block_size(block_size),
        prepare::is_tree(before),
        places_all(before, block_size, shared_len, now),
        is_placeable(before, block_size, epoch),
    ensures
        prepare::is_tree(now),
        forall|i: int|
            0 <= i < now.len() && (#[trigger] now[i]).alias is None ==> is_staged_inode(
                now[i],
                block_size,
                epoch,
            ),
        forall|i: int|
            0 <= i < now.len() && layout::is_dir((#[trigger] now[i]).metadata.mode)
                ==> is_flat_inode(now[i], block_size),
        forall|i: int| 0 <= i < now.len() ==> (#[trigger] now[i]).alias == before[i].alias,
        are_apart(
            now,
            METADATA_START as int,
            METADATA_START + area_of(before, block_size).end,
        ),
{
    let shift = data_shift(before, block_size, shared_len);
    assert forall|i: int| 0 <= i < now.len() implies {
        &&& (#[trigger] now[i]).alias == before[i].alias
        &&& now[i].parent == before[i].parent
        &&& now[i].children == before[i].children
        &&& now[i].metadata == before[i].metadata
        &&& now[i].alias is None ==> is_staged_inode(now[i], block_size, epoch)
        &&& layout::is_dir(now[i].metadata.mode) ==> is_flat_inode(now[i], block_size)
    } by {
        assert(has_alias_nid(before, now, i));
        if before[i].alias is None {
            lemma_moved_inode(
                before[i],
                place_of(before, block_size, i),
                block_size,
                shift,
                epoch,
                now[i],
            );
        }
    }
    assert forall|i: int| 0 <= i < now.len() implies {
        let e = #[trigger] now[i];
        &&& e.parent < now.len()
        &&& forall|k: int|
            0 <= k < e.children@.len() ==> (#[trigger] e.children@[k]).1 < now.len()
        &&& e.alias matches Some(j) ==> j < now.len()
    } by {
        assert(before[i].parent < before.len());
    }
    lemma_apart(before, block_size, shared_len, epoch, now);
}

/// Inodes stay apart when only data changes.
pub(crate) proof fn lemma_still_apart(before: Seq<Entry>, block_size: int, epoch: u64, start: int, end: int, now: Seq<Entry>)
    requires
        now.len() == before.len(),
        forall|i: int| 0 <= i < before.len() ==> keeps_inode(before[i], #[trigger] now[i]),
        are_apart(before, start, end),
        forall|i: int|
            0 <= i < before.len() && (#[trigger] before[i]).alias is None ==> is_staged_inode(
                before[i],
                block_size,
                epoch,
            ),
    ensures
        are_apart(now, start, end),
        forall|i: int|
            0 <= i < now.len() && (#[trigger] now[i]).alias is None ==> is_staged_inode(
                now[i],
                block_size,
                epoch,
            ),
{
    assert forall|i: int| 0 <= i < now.len() && (#[trigger] now[i]).alias is None implies {
        &&& is_staged_inode(now[i], block_size, epoch)
        &&& start <= 32 * now[i].nid
        &&& 32 * now[i].nid + now[i].body_len() <= end
        &&& before[i].alias is None
        &&& now[i].nid == before[i].nid
        &&& now[i].body_len() == before[i].body_len()
    } by {
        assert(keeps_inode(before[i], now[i]));
        assert(before[i].alias is None);
    }
    assert forall|i: int, j: int|
        0 <= i < now.len() && 0 <= j < now.len() && i != j && (#[trigger] now[i]).alias is None && (
        #[trigger] now[j]).alias is None implies slots::disjoint(
        32 * now[i].nid,
        now[i].body_len(),
        32 * now[j].nid,
        now[j].body_len(),
    ) by {
        assert(before[i].alias is None && before[j].alias is None);
    }
}

/// What storing data keeps of the files.
#[verifier::spinoff_prover]
pub(crate) proof fn lemma_staged<F: Fn(&[u8], usize) -> Option<(usize, Vec<u8>)>>(
    lz4: F,
    before: Seq<Entry>,
    contents: Seq<Vec<u8>>,
    options: BuildOptions,
    staged: Seq<Entry>,
    pieces: Seq<Seq<u8>>,
    epoch: u64,
)
    requires
        build_options::invalid(options@) is None,
        contents.len() == before.len(),
        is_buildable(before, options.block_size as int, epoch),
        all_stored(lz4, before, contents, options, before.len() as int, staged, pieces),
    ensures
        prepare::is_tree(staged),
        is_placeable(staged, options.block_size as int, epoch),
        joined(pieces, before.len() as int).len() % (options.block_size as nat) == 0,
{
    let n = before.len() as int;
    let b = options.block_size as int;
    lemma_sizes(lz4, before, contents, options, n, staged, pieces, epoch);
    assert forall|i: int| 0 <= i < n implies match (#[trigger] staged[i]).alias {
        Some(j) => j < n && staged[j as int].alias is None && !layout::is_dir(
            staged[i].metadata.mode,
        ),
        None => is_staged_inode(staged[i], b, epoch),
    } by {
        assert(keeps_file(before[i], staged[i]));
        if let Some(j) = before[i].alias {
            assert(before[i].parent < n);
            assert(keeps_file(before[j as int], staged[j as int]));
        }
    }
    assert forall|i: int| 0 <= i < n implies {
        let e = #[trigger] staged[i];
        &&& e.parent < n
        &&& forall|k: int| 0 <= k < e.children@.len() ==> (#[trigger] e.children@[k]).1 < n
        &&& e.alias matches Some(j) ==> j < n
    } by {
        assert(keeps_file(before[i], staged[i]));
        assert(before[i].parent < n);
    }
    assert forall|i: int|
        0 <= i < n && layout::is_dir((#[trigger] staged[i]).metadata.mode) implies is_flat_inode(
        staged[i],
        b,
    ) by {
        assert(keeps_file(before[i], staged[i]));
        assert(before[i].alias is None);
    }
}

/// True when the inodes of stored files can be placed.
pub open spec fn is_placeable(entries: Seq<Entry>, block_size: int, epoch: u64) -> bool {
    &&& forall|i: int|
        0 <= i < entries.len() ==> match (#[trigger] entries[i]).alias {
            Some(j) => j < entries.len() && entries[j as int].alias is None && !layout::is_dir(
                entries[i].metadata.mode,
            ),
            None => is_staged_inode(entries[i], block_size, epoch),
        }
    &&& forall|i: int|
        0 <= i < entries.len() && layout::is_dir((#[trigger] entries[i]).metadata.mode)
            ==> is_flat_inode(entries[i], block_size)
}

/// Writes what stands before the data.
fn write_head(
    entries: &Vec<Entry>,
    options: &BuildOptions,
    epoch: u64,
    build_time: u64,
    shared: &Vec<u8>,
    shared_at: u64,
    area_end: Ghost<int>,
    start: usize,
    image_size: u64,
) -> (head: Result<Vec<u8>, ImageError>)
    requires
        build_options::invalid(options@) is None,
        entries@.len() > 0,
        are_apart(entries@, METADATA_START as int, area_end@),
        forall|i: int|
            0 <= i < entries@.len() && (#[trigger] entries@[i]).alias is None ==> is_staged_inode(
                entries@[i],
                options.block_size as int,
                epoch,
            ),
        METADATA_START <= area_end@ <= shared_at,
        shared_at + shared@.len() <= start,
        shared@.len() > 0 ==> shared_at / options.block_size as u64 <= u32::MAX,
        image_size / options.block_size as u64 <= u32::MAX,
    ensures
        match head {
            Ok(data) => {
                &&& entries@[0].nid <= 0xffff
                &&& entries@.len() <= u64::MAX
                &&& inode::has_digest(options.uuid, entries@, epoch)
                &&& is_head(
                    data@,
                    inode::initial_area(
                        final_superblock(
                            entries@,
                            *options,
                            epoch,
                            build_time,
                            shared@.len() as int,
                            shared_at as int,
                            image_size as int,
                        ),
                    ),
                    entries@,
                    epoch,
                    shared@,
                    shared_at as int,
                    start as int,
                )
            },
            Err(error) => {
                ||| error == ImageError::TooManyInodes && entries@.len() > u32::MAX
                ||| error == ImageError::RootTooFar && entries@[0].nid > 0xffff
            },
        },
{
    let mut area = match write_inodes(entries, epoch, options.block_size, start) {
        Ok(area) => area,
        Err(error) => {
            return Err(error);
        },
    };
    let unit: u64 = options.block_size as u64;
    let shared_block: u32 = if shared.len() == 0 {
        0
    } else {
        (shared_at / unit) as u32
    };
    let initial = match inode::write_superblock(
        entries,
        options,
        epoch,
        build_time,
        0,
        shared_block,
        (image_size / unit) as u32,
    ) {
        Ok(initial) => initial,
        Err(_) => {
            return Err(ImageError::RootTooFar);
        },
    };
    let ghost inodes = area@;
    assert(entries.len() <= u64::MAX);
    bytes::overwrite(&mut area, shared_at as usize, shared.as_slice());
    let ghost with_shared = area@;
    bytes::overwrite(&mut area, 0, initial.as_slice());
    proof {
        assert(area@.take(METADATA_START as int) =~= initial@);
        assert forall|i: int|
            0 <= i < entries@.len() && (#[trigger] entries@[i]).alias is None implies bytes::stands_at(
            area@,
            32 * entries@[i].nid,
            body_of(entries@, epoch, i),
        ) by {
            inode::lemma_body_len(entries@[i], i + 1, epoch);
            let body = body_of(entries@, epoch, i);
            lemma_patched(inodes, shared_at as int, shared@, 32 * entries@[i].nid, body);
            lemma_patched(with_shared, 0, initial@, 32 * entries@[i].nid, body);
        }
        assert(with_shared.subrange(shared_at as int, shared_at + shared@.len()) =~= shared@);
        lemma_patched(with_shared, 0, initial@, shared_at as int, shared@);
        assert forall|k: int|
            METADATA_START <= k < start && !in_inode(entries@, k) && !(shared_at <= k < shared_at
                + shared@.len()) implies #[trigger] area@[k] == 0 by {
            assert(area@[k] == with_shared[k]);
            assert(with_shared[k] == inodes[k]);
        }
    }
    Ok(area)
}

/// Writes the image of the files, whose data are the contents. Every file keeps
/// its place in the list, with its inode as it is written.
#[verifier::rlimit(60)]
#[verifier::spinoff_prover]
pub fn write_filesystem<F: Fn(&[u8], usize) -> Option<(usize, Vec<u8>)>>(
    entries: &mut Vec<Entry>,
    contents: &Vec<Vec<u8>>,
    options: &BuildOptions,
    epoch: u64,
    current_time: u64,
    shared: &Vec<u8>,
    lz4: &F,
) -> (built: Result<(Vec<u8>, BuildReport), ImageError>)
    requires
        build_options::invalid(options@) is None,
        contents@.len() == old(entries)@.len(),
        is_buildable(old(entries)@, options.block_size as int, epoch),
        forall|slice: &[u8], capacity: usize| call_requires(*lz4, (slice, capacity)),
    ensures
        match built {
            Ok((image, report)) => builds_to(
                *lz4,
                old(entries)@,
                contents@,
                *options,
                epoch,
                current_time,
                shared@,
                final(entries)@,
                image@,
                report,
            ),
            Err(error) => is_build_error(
                *lz4,
                old(entries)@,
                contents@,
                *options,
                shared@.len() as int,
                error,
            ),
        },
{
    let ghost before = entries@;
    let ghost n = before.len() as int;
    let ghost b = options.block_size as int;
    let ghost l = shared@.len() as int;
    let (data, mut report) = match stage_entries(entries, contents, options, epoch, lz4) {
        Ok(staged) => staged,
        Err(error) => {
            return Err(error);
        },
    };
    let ghost staged = entries@;
    let ghost pieces = choose|pieces: Seq<Seq<u8>>|
        #[trigger] all_stored(*lz4, before, contents@, *options, n, staged, pieces) && data@
            == joined(pieces, n);
    proof {
        lemma_staged(*lz4, before, contents@, *options, staged, pieces, epoch);
    }
    assert(stores_all(*lz4, before, contents@, *options, staged, data@));
    if data.len() as u64 > ADDRESS_LIMIT {
        assert(is_middle_error(staged, data@.len() as int, b, l, ImageError::AddressOverflow));
        return Err(ImageError::AddressOverflow);
    }
    let (shared_at, start) = match place_entries(
        entries,
        options.block_size,
        shared.len(),
        Ghost(epoch),
    ) {
        Ok(placed) => placed,
        Err(error) => {
            assert(is_middle_error(staged, data@.len() as int, b, l, error));
            return Err(error);
        },
    };
    let ghost placed = entries@;
    proof {
        lemma_placed(staged, b, l, epoch, placed);
        lemma_areas(staged, b, l);
        lemma_shift_bound(staged, b, l);
    }
    if start > usize::MAX as u64 {
        assert(is_middle_error(staged, data@.len() as int, b, l, ImageError::TooLarge));
        return Err(ImageError::TooLarge);
    }
    let end: u64 = start + data.len() as u64;
    let directories = match write_directories(entries, options.block_size, end) {
        Ok(directories) => directories,
        Err(error) => {
            assert(is_late_error(placed, b, end as int, error));
            assert(is_middle_error(staged, data@.len() as int, b, l, error));
            return Err(error);
        },
    };
    let ghost now = entries@;
    let ghost listings = choose|listings: Seq<Seq<u8>>|
        #[trigger] all_listed(placed, b, end as int, n, now, listings) && directories@ == joined(
            listings,
            n,
        );
    proof {
        lemma_listed(placed, b, end as int, n, now, listings);
        lemma_still_apart(
            placed,
            b,
            epoch,
            METADATA_START as int,
            METADATA_START + area_of(staged, b).end,
            now,
        );
    }
    assert(lists_all(placed, b, end as int, now, directories@));
    let unit: u64 = options.block_size as u64;
    let total: u128 = end as u128 + directories.len() as u128;
    if total / unit as u128 > 0xffff_ffff {
        assert((end + directories@.len()) / b > u32::MAX);
        assert(is_late_error(placed, b, end as int, ImageError::AddressOverflow));
        assert(is_middle_error(staged, data@.len() as int, b, l, ImageError::AddressOverflow));
        return Err(ImageError::AddressOverflow);
    }
    assert(total <= 0xffff_ffff_ffffint * 4096) by (nonlinear_arith)
        requires
            total / unit as u128 <= 0xffff_ffff,
            0 < unit <= 4096,
    ;
    let image_size: u64 = total as u64;
    let build_time: u64 = match options.timestamp {
        Some(time) => time,
        None => current_time,
    };
    let mut image = match write_head(
        entries,
        options,
        epoch,
        build_time,
        shared,
        shared_at,
        Ghost(METADATA_START + area_of(staged, b).end),
        start as usize,
        image_size,
    ) {
        Ok(head) => head,
        Err(error) => {
            assert(keeps_inode(placed[0], now[0]));
            assert(is_late_error(placed, b, end as int, error));
            assert(is_middle_error(staged, data@.len() as int, b, l, error));
            return Err(error);
        },
    };
    let ghost head = image@;
    bytes::push_all(&mut image, data.as_slice());
    bytes::push_all(&mut image, directories.as_slice());
    report.image_bytes = image_size;
    proof {
        assert(image@.take(start as int) =~= head);
        assert(image@.skip(start as int) =~= data@ + directories@);
        lemma_whole_blocks(start as int, data@.len() as int, directories@.len() as int, b);
        let steps = Steps { staged, pieces, placed, listings };
        assert(is_image(
            *lz4,
            before,
            contents@,
            *options,
            epoch,
            current_time,
            shared@,
            steps,
            now,
            image@,
        ));
        assert(reports(steps.staged, n, report));
    }
    Ok((image, report))
}

proof fn lemma_whole_blocks(x: int, y: int, z: int, b: int)
    requires
        b > 0,
        x % b == 0,
        y % b == 0,
        z % b == 0,
    ensures
        (x + y + z) % b == 0,
{
    vstd::arithmetic::div_mod::lemma_add_mod_noop(x, y, b);
    vstd::arithmetic::div_mod::lemma_add_mod_noop(x + y, z, b);
    vstd::arithmetic::div_mod::lemma_small_mod(0, b as nat);
}

proof fn lemma_shift_bound(staged: Seq<Entry>, b: int, l: int)
    requires
        compression::is_block_size(b),
        area_of(staged, b).end >= 0,
        l >= 0,
        data_shift(staged, b, l) <= u32::MAX,
    ensures
        data_start(staged, b, l) <= METADATA_START + ADDRESS_LIMIT,
{
    lemma_areas(staged, b, l);
    let shift = data_shift(staged, b, l);
    assert(shift * b <= 0xffff_ffff * 4096) by (nonlinear_arith)
        requires
            0 <= shift <= 0xffff_ffff,
            0 < b <= 4096,
    ;
}

/// A report counts the inodes of an image, and of those the directories, the regular
/// files and the compressed ones, and adds up the sizes of the regular files: each
/// file with an inode of its own counts once, and no other one.
pub proof fn law_reports_count_inodes(
    entries: Seq<Entry>,
    n: int,
    before: BuildReport,
    after: BuildReport,
)
    requires
        0 <= n < entries.len(),
        reports(entries, n, before),
        reports(entries, n + 1, after),
    ensures
        ({
            let e = entries[n];
            let kind = e.metadata.mode as int / 0x1000 % 16;
            let own: int = if e.alias is None {
                1
            } else {
                0
            };
            &&& after.inode_count == before.inode_count + own
            &&& after.directory_count == before.directory_count + if kind == 4 {
                own
            } else {
                0
            }
            &&& after.file_count == before.file_count + if kind == 8 {
                own
            } else {
                0
            }
            &&& after.compressed_files == before.compressed_files + if e.layout == 1 || e.layout
                == 3 {
                own
            } else {
                0
            }
            &&& after.uncompressed_bytes == before.uncompressed_bytes + if kind == 8 {
                own * e.size
            } else {
                0
            }
        }),
{
}

/// The first report counts nothing.
pub proof fn law_reports_start_at_nothing(entries: Seq<Entry>, report: BuildReport)
    requires
        reports(entries, 0, report),
    ensures
        report.inode_count == 0 && report.directory_count == 0 && report.file_count == 0,
        report.compressed_files == 0 && report.uncompressed_bytes == 0,
{
}

} // verus!
