//! The data of files, as it is stored behind the metadata of an image.

use vstd::prelude::*;

use crate::bytes;
use crate::erofs::build_options::BuildOptions;
use crate::erofs::compression;
use crate::erofs::compression::{CompressError, CompressedFile, Compression};
use crate::erofs::indexes;
use crate::erofs::indexes::IndexError;
use crate::erofs::layout;
use crate::erofs::layout::{EROFS_INODE_COMPRESSED_COMPACT, EROFS_INODE_COMPRESSED_FULL};
use crate::erofs::tree::Entry;

verus! {

/// Why the data of a file cannot be stored.
#[derive(Debug, Clone, Copy, PartialEq, Eq, Structural)]
pub enum StageError {
    /// The data is longer or shorter than its inode says.
    SizeChanged,
    MissingTarget,
    /// The target of a link holds a zero byte.
    InvalidTarget,
    Unaligned,
    AddressOverflow,
    Compress(CompressError),
    Index(IndexError),
}

/// What is wrong with a position as a block address.
pub open spec fn address_error(position: int, block_size: int) -> Option<StageError> {
    if position % block_size != 0 {
        Some(StageError::Unaligned)
    } else if position / block_size > 0xffff_ffff {
        Some(StageError::AddressOverflow)
    } else {
        None
    }
}

/// The address of the block at a position.
pub fn block_address(position: u64, block_size: u32) -> (address: Result<u32, StageError>)
    requires
        block_size > 0,
    ensures
        match address {
            Ok(block) => address_error(position as int, block_size as int) is None && block
                == position / block_size as u64,
            Err(error) => address_error(position as int, block_size as int) == Some(error),
        },
{
    if position % block_size as u64 != 0 {
        return Err(StageError::Unaligned);
    }
    let block: u64 = position / block_size as u64;
    if block > 0xffff_ffff {
        return Err(StageError::AddressOverflow);
    }
    Ok(block as u32)
}

/// How much of the data is stored in blocks of its own.
pub open spec fn external_len(e: Entry, data: Seq<u8>) -> int {
    data.len() - e.inline@.len()
}

/// True when `now` is the inode of data that is stored as it is at `position`,
/// and `stored` what stands there: all but the inline end, in whole blocks.
pub open spec fn is_flat(
    e: Entry,
    data: Seq<u8>,
    position: int,
    block_size: int,
    now: Entry,
    stored: Seq<u8>,
) -> bool {
    let external = external_len(e, data);
    &&& e.size == data.len()
    &&& external != 0 ==> address_error(position, block_size) is None
    &&& now.data_union == if external != 0 {
        position / block_size
    } else {
        0xffff_ffffint
    }
    &&& now.inline@ == data.skip(external)
    &&& now == (Entry { data_union: now.data_union, inline: now.inline, ..e })
    &&& stored == data.take(external) + bytes::filled(
        0,
        compression::in_blocks(external, block_size) - external,
    )
}

/// Why data cannot be stored as it is.
pub open spec fn flat_error(
    e: Entry,
    data: Seq<u8>,
    position: int,
    block_size: int,
) -> Option<StageError> {
    if e.size != data.len() {
        Some(StageError::SizeChanged)
    } else if external_len(e, data) != 0 {
        address_error(position, block_size)
    } else {
        None
    }
}

pub fn write_flat_bytes(e: &mut Entry, data: &[u8], position: u64, block_size: u32) -> (written:
    Result<Vec<u8>, StageError>)
    requires
        compression::is_block_size(block_size as int),
        old(e).inline@.len() <= old(e).size,
    ensures
        match written {
            Ok(stored) => is_flat(
                *old(e),
                data@,
                position as int,
                block_size as int,
                *final(e),
                stored@,
            ),
            Err(error) => flat_error(*old(e), data@, position as int, block_size as int) == Some(
                error,
            ) && *final(e) == *old(e),
        },
{
    if e.size != data.len() as u64 {
        return Err(StageError::SizeChanged);
    }
    let external: usize = data.len() - e.inline.len();
    let mut address: u32 = 0xffff_ffff;
    if external != 0 {
        address = match block_address(position, block_size) {
            Ok(address) => address,
            Err(error) => {
                return Err(error);
            },
        };
    }
    let mut stored = bytes::copy_range(data, 0, external);
    let inline = bytes::copy_range(data, external, data.len());
    assert(stored@ =~= data@.take(external as int));
    assert(inline@ =~= data@.skip(external as int));
    let over: usize = external % block_size as usize;
    let padding: usize = if over == 0 {
        0
    } else {
        block_size as usize - over
    };
    proof {
        lemma_padding(external as int, block_size as int);
    }
    bytes::push_filled(&mut stored, 0, padding);
    e.data_union = address;
    e.inline = inline;
    Ok(stored)
}

// ---------------------------------------------------------------------------
// Regular files
// ---------------------------------------------------------------------------

/// True when a file is worth an attempt to compress it.
pub open spec fn tries_compression(e: Entry, options: BuildOptions) -> bool {
    e.size > options.block_size && options.compression != Compression::Off
}

/// The size of a file with its blocks as they are, and its inline end.
pub open spec fn flat_size(e: Entry, block_size: int) -> int {
    compression::in_blocks(e.size - e.inline@.len(), block_size) + e.inline@.len()
}

/// The indexes of a compressed file in the form that the options ask for.
pub open spec fn chosen_indexes(e: Entry, options: BuildOptions, file: CompressedFile) -> Result<
    Seq<u8>,
    IndexError,
> {
    if file.used_compression && options.compact_indexes {
        indexes::compacted(
            file.metadata@,
            e.inode_size + e.xattrs@.len(),
            options.block_size as int,
        )
    } else {
        Ok(file.metadata@)
    }
}

/// True when `now` and `stored` are the compressed file, where that saves
/// space, or else the file as it is.
pub open spec fn is_choice(
    e: Entry,
    data: Seq<u8>,
    position: int,
    options: BuildOptions,
    file: CompressedFile,
    packed: Seq<u8>,
    now: Entry,
    stored: Seq<u8>,
) -> bool {
    let block_size = options.block_size as int;
    match chosen_indexes(e, options, file) {
        Err(_) => false,
        Ok(metadata) => if file.used_compression && packed.len() + metadata.len() < flat_size(
            e,
            block_size,
        ) {
            &&& now.layout == if options.compact_indexes {
                EROFS_INODE_COMPRESSED_COMPACT
            } else {
                EROFS_INODE_COMPRESSED_FULL
            }
            &&& now.data_union == file.compressed_blocks
            &&& now.inline@ == Seq::<u8>::empty()
            &&& now.compression@ == metadata
            &&& now == (Entry {
                layout: now.layout,
                data_union: now.data_union,
                inline: now.inline,
                compression: now.compression,
                ..e
            })
            &&& stored == packed
        } else {
            is_flat(e, data, position, block_size, now, stored)
        },
    }
}

/// True when `file` and `packed` may be what compressing the data gives.
pub open spec fn is_candidate<F: Fn(&[u8], usize) -> Option<(usize, Vec<u8>)>>(
    lz4: F,
    data: Seq<u8>,
    position: int,
    options: BuildOptions,
    file: CompressedFile,
    packed: Seq<u8>,
) -> bool {
    compression::compresses_to(
        lz4,
        data,
        position,
        options.block_size as int,
        options.cluster_size as usize,
        options.compression,
        file,
        packed,
    )
}

/// True when `now` and `stored` may be the inode and the data of a regular
/// file that is stored at `position`.
pub open spec fn is_stored<F: Fn(&[u8], usize) -> Option<(usize, Vec<u8>)>>(
    lz4: F,
    e: Entry,
    data: Seq<u8>,
    position: int,
    options: BuildOptions,
    now: Entry,
    stored: Seq<u8>,
) -> bool {
    &&& e.size == data.len()
    &&& if tries_compression(e, options) {
        exists|file: CompressedFile, packed: Seq<u8>|
            #[trigger] is_candidate(lz4, data, position, options, file, packed) && is_choice(
                e,
                data,
                position,
                options,
                file,
                packed,
                now,
                stored,
            )
    } else {
        is_flat(e, data, position, options.block_size as int, now, stored)
    }
}

/// True when storing a regular file may fail with the error.
pub open spec fn is_store_error<F: Fn(&[u8], usize) -> Option<(usize, Vec<u8>)>>(
    lz4: F,
    e: Entry,
    data: Seq<u8>,
    position: int,
    options: BuildOptions,
    error: StageError,
) -> bool {
    let block_size = options.block_size as int;
    let settings = compression::settings_error(
        position,
        block_size,
        options.cluster_size as int,
        options.compression,
    );
    match error {
        StageError::Compress(inner) => tries_compression(e, options) && match settings {
            Some(found) => inner == found,
            None => {
                ||| inner == CompressError::Compressor && compression::gives_up(
                    lz4,
                    data,
                    position,
                    block_size,
                    options.cluster_size as usize,
                    options.compression,
                )
                ||| inner == CompressError::AddressOverflow && compression::overflows(
                    lz4,
                    data,
                    position,
                    block_size,
                    options.cluster_size as usize,
                    options.compression,
                )
            },
        },
        StageError::Index(inner) => tries_compression(e, options) && fails_to_compact(
            lz4,
            e,
            data,
            position,
            options,
            inner,
        ),
        _ => flat_error(e, data, position, block_size) == Some(error),
    }
}

/// True when the indexes of the compressed file may have no compact form.
pub open spec fn fails_to_compact<F: Fn(&[u8], usize) -> Option<(usize, Vec<u8>)>>(
    lz4: F,
    e: Entry,
    data: Seq<u8>,
    position: int,
    options: BuildOptions,
    error: IndexError,
) -> bool {
    exists|file: CompressedFile, packed: Seq<u8>|
        #[trigger] is_candidate(lz4, data, position, options, file, packed) && chosen_indexes(
            e,
            options,
            file,
        ) == Err::<Seq<u8>, IndexError>(error)
}

/// Stores a regular file at `position`: compressed where the options ask for it
/// and it saves space, else as it is.
pub fn write_regular<F: Fn(&[u8], usize) -> Option<(usize, Vec<u8>)>>(
    e: &mut Entry,
    data: &[u8],
    position: u64,
    options: &BuildOptions,
    lz4: &F,
) -> (written: Result<Vec<u8>, StageError>)
    requires
        crate::erofs::build_options::invalid(options@) is None,
        old(e).inline@.len() <= old(e).size,
        old(e).inline@.len() <= 4096,
        old(e).inode_size <= 64,
        old(e).xattrs@.len() <= 0x10_0000,
        forall|slice: &[u8], capacity: usize| call_requires(*lz4, (slice, capacity)),
    ensures
        match written {
            Ok(stored) => is_stored(
                *lz4,
                *old(e),
                data@,
                position as int,
                *options,
                *final(e),
                stored@,
            ),
            Err(error) => is_store_error(
                *lz4,
                *old(e),
                data@,
                position as int,
                *options,
                error,
            ),
        },
{
    let block_size = options.block_size;
    if e.size > block_size as u64 && options.compression != Compression::Off {
        let (mut file, packed) = match compression::compress_file(
            data,
            position,
            block_size,
            options.cluster_size,
            options.compression,
            lz4,
        ) {
            Ok(compressed) => compressed,
            Err(error) => {
                return Err(StageError::Compress(error));
            },
        };
        let ghost whole = file;
        if e.size != file.original_size {
            return Err(StageError::SizeChanged);
        }
        assert(is_candidate(*lz4, data@, position as int, *options, whole, packed@));
        proof {
            indexes::law_one_index_per_block(
                *lz4,
                data@,
                position as int,
                block_size as int,
                options.cluster_size as usize,
                options.compression,
                whole,
                packed@,
            );
            assert(data.len() <= usize::MAX);
            let n = data@.len() as int + block_size - 1;
            let b = block_size as int;
            assert(1 <= n / b <= n / 512) by (nonlinear_arith)
                requires
                    n >= b,
                    b >= 512,
            ;
        }
        if file.used_compression && options.compact_indexes {
            if let Err(error) = file.compact_indexes(e.inode_size + e.xattrs.len(), block_size) {
                assert(chosen_indexes(*e, *options, whole) == Err::<Seq<u8>, IndexError>(error));
                return Err(StageError::Index(error));
            }
        }
        assert(chosen_indexes(*e, *options, whole) == Ok::<Seq<u8>, IndexError>(file.metadata@));
        let external: u64 = e.size - e.inline.len() as u64;
        let over: u64 = external % block_size as u64;
        let padding: u64 = if over == 0 {
            0
        } else {
            block_size as u64 - over
        };
        proof {
            lemma_padding(external as int, block_size as int);
        }
        let flat: u128 = external as u128 + padding as u128 + e.inline.len() as u128;
        assert(flat == flat_size(*e, block_size as int));
        if file.used_compression && (file.physical_size as u128 + file.metadata.len() as u128)
            < flat {
            e.layout = if options.compact_indexes {
                EROFS_INODE_COMPRESSED_COMPACT
            } else {
                EROFS_INODE_COMPRESSED_FULL
            };
            e.data_union = file.compressed_blocks;
            e.inline = Vec::new();
            e.compression = file.metadata;
            assert(is_choice(
                *old(e),
                data@,
                position as int,
                *options,
                whole,
                packed@,
                *e,
                packed@,
            ));
            return Ok(packed);
        }
        let written = write_flat_bytes(e, data, position, block_size);
        proof {
            if written is Ok {
                let stored = written->Ok_0;
                assert(is_choice(
                    *old(e),
                    data@,
                    position as int,
                    *options,
                    whole,
                    packed@,
                    *e,
                    stored@,
                ));
            }
        }
        return written;
    }
    write_flat_bytes(e, data, position, block_size)
}

/// Whole blocks are reached by what is missing in the last one.
pub proof fn lemma_padding(n: int, b: int)
    requires
        0 <= n,
        compression::is_block_size(b),
    ensures
        compression::in_blocks(n, b) == n + if n % b == 0 {
            0
        } else {
            b - n % b
        },
{
    vstd::arithmetic::div_mod::lemma_fundamental_div_mod(n, b);
    let q = n / b;
    let over = n % b;
    vstd::arithmetic::mul::lemma_mul_is_commutative(q, b);
    if over == 0 {
        vstd::arithmetic::div_mod::lemma_fundamental_div_mod_converse(n + b - 1, b, q, b - 1);
    } else {
        assert(n + b - 1 == b * (q + 1) + (over - 1)) by (nonlinear_arith)
            requires
                n == b * q + over,
        ;
        vstd::arithmetic::div_mod::lemma_fundamental_div_mod_converse(n + b - 1, b, q + 1, over - 1);
        vstd::arithmetic::mul::lemma_mul_is_distributive_add_other_way(b, q, 1);
    }
}

/// A file is stored compressed exactly where the options ask for compression, it is
/// larger than a block, some of it was compressed, and this takes less space than
/// the file as it is; its layout then says with which indexes.
pub proof fn law_compression_must_save_space(
    e: Entry,
    data: Seq<u8>,
    position: int,
    options: BuildOptions,
    file: CompressedFile,
    packed: Seq<u8>,
    now: Entry,
    stored: Seq<u8>,
)
    requires
        options.block_size > 0,
        e.inline@.len() <= e.size,
        e.layout != 1 && e.layout != 3,
        is_choice(e, data, position, options, file, packed, now, stored),
    ensures
        ({
            let b = options.block_size as int;
            let tail = e.inline@.len() as int;
            let blocks = (e.size - tail + b - 1) / b;
            let smaller = file.used_compression && packed.len() + chosen_indexes(
                e,
                options,
                file,
            )->Ok_0.len() < blocks * b + tail;
            &&& smaller <==> now.layout == 1 || now.layout == 3
            &&& smaller ==> stored == packed && now.inline@.len() == 0 && now.data_union
                == file.compressed_blocks && (now.layout == 3 <==> options.compact_indexes)
            &&& !smaller ==> now.layout == e.layout && stored.take(data.len() - tail) == data.take(
                data.len() - tail,
            ) && now.inline@ == data.skip(data.len() - tail)
        }),
        tries_compression(e, options) <==> e.size > options.block_size && options.compression
            != Compression::Off,
{
    let external = external_len(e, data);
    if is_flat(e, data, position, options.block_size as int, now, stored) {
        assert(stored.take(external) =~= data.take(external));
    }
}

/// A block has an address where it starts at a whole block and its number fits in
/// 32 bits.
pub proof fn law_blocks_have_addresses(position: int, block_size: int)
    requires
        0 <= position,
        0 < block_size,
    ensures
        address_error(position, block_size) is None <==> position % block_size == 0 && position
            / block_size <= 0xffff_ffff,
        position % block_size != 0 ==> address_error(position, block_size) == Some(
            StageError::Unaligned,
        ),
{
}

/// Data that is stored as it is stands at its block in whole blocks, with zeros
/// behind it, but for an inline end, which stands behind the inode. A file that is
/// all inline has no block.
pub proof fn law_flat_files_are_stored_as_they_are(
    e: Entry,
    data: Seq<u8>,
    position: int,
    block_size: int,
    now: Entry,
    stored: Seq<u8>,
)
    requires
        0 < block_size,
        0 <= position,
        e.inline@.len() <= data.len(),
        is_flat(e, data, position, block_size, now, stored),
    ensures
        ({
            let outside = data.len() - e.inline@.len();
            &&& stored.len() >= outside && stored.len() % block_size as nat == 0 && stored.len()
                < outside + block_size
            &&& forall|i: int| 0 <= i < outside ==> #[trigger] stored[i] == data[i]
            &&& forall|i: int| outside <= i < stored.len() ==> #[trigger] stored[i] == 0
            &&& outside > 0 ==> now.data_union * block_size == position
            &&& outside == 0 ==> now.data_union == 0xffff_ffff
            &&& now.inline@ == data.skip(outside)
        }),
{
    let outside = data.len() - e.inline@.len();
    let n = outside + block_size - 1;
    let q = n / block_size;
    assert(q * block_size <= n < q * block_size + block_size && (q * block_size) % block_size == 0)
        by (nonlinear_arith)
        requires
            block_size > 0,
            q == n / block_size,
    ;
    if outside > 0 {
        let p = position / block_size;
        assert(p * block_size == position) by (nonlinear_arith)
            requires
                block_size > 0,
                p == position / block_size,
                position % block_size == 0,
        ;
    }
}

} // verus!
