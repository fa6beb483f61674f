//! Compression of file data into physical clusters, and the indexes that find
//! the clusters again.

use vstd::prelude::*;

use crate::bytes;
use crate::text;

verus! {

#[derive(Debug, Clone, Copy, PartialEq, Eq, Structural)]
pub enum Compression {
    Off,
    Lz4,
    Lz4Hc { level: i32 },
}

impl Default for Compression {
    fn default() -> (compression: Compression)
        ensures
            compression == (Compression::Lz4Hc { level: 9 }),
    {
        Compression::Lz4Hc { level: 9 }
    }
}

/// Why a compression cannot be used.
#[derive(Debug, Clone, Copy, PartialEq, Eq, Structural)]
pub enum CompressionError {
    InvalidLevel,
    LevelOutOfRange,
    Unsupported,
}

/// The compression that a name and an optional level after a comma choose.
pub open spec fn compression_of(value: Seq<char>) -> Result<Compression, CompressionError> {
    let (name, level) = match text::halves(value, ',') {
        Some((name, level)) => (name, Some(level)),
        None => (value, None),
    };
    if name == "none"@ && level is None {
        Ok(Compression::Off)
    } else if name == "lz4"@ && level is None {
        Ok(Compression::Lz4)
    } else if name == "lz4hc"@ {
        match level {
            None => Ok(Compression::Lz4Hc { level: 9 }),
            Some(digits) => match text::signed(digits, i32::MIN as int, i32::MAX as nat) {
                None => Err(CompressionError::InvalidLevel),
                Some(n) => if 1 <= n <= 12 {
                    Ok(Compression::Lz4Hc { level: n as i32 })
                } else {
                    Err(CompressionError::LevelOutOfRange)
                },
            },
        }
    } else {
        Err(CompressionError::Unsupported)
    }
}

impl Compression {
    /// Reads a compression as it is given on a command line.
    pub fn parse(value: &[char]) -> (compression: Result<Compression, CompressionError>)
        ensures
            compression == compression_of(value@),
    {
        let (name, level): (&[char], Option<&[char]>) = match text::split_at_first(value, ',') {
            Some((name, level)) => (name, Some(level)),
            None => (value, None),
        };
        if text::is_text(name, "lz4hc") {
            proof {
                reveal_strlit("none");
                reveal_strlit("lz4");
                reveal_strlit("lz4hc");
                assert("none"@.len() != "lz4hc"@.len());
                assert("lz4"@.len() != "lz4hc"@.len());
            }
            return match level {
                None => Ok(Compression::Lz4Hc { level: 9 }),
                Some(digits) => {
                    proof {
                        text::lemma_signed_range(digits@, i32::MIN as int, i32::MAX as nat);
                    }
                    match text::parse_signed(digits) {
                        None => Err(CompressionError::InvalidLevel),
                        Some(n) => if n < i32::MIN as i64 || n > i32::MAX as i64 {
                            Err(CompressionError::InvalidLevel)
                        } else if 1 <= n && n <= 12 {
                            Ok(Compression::Lz4Hc { level: n as i32 })
                        } else {
                            Err(CompressionError::LevelOutOfRange)
                        },
                    }
                },
            };
        }
        if level.is_none() && text::is_text(name, "none") {
            Ok(Compression::Off)
        } else if level.is_none() && text::is_text(name, "lz4") {
            Ok(Compression::Lz4)
        } else {
            Err(CompressionError::Unsupported)
        }
    }

    /// How a compression is written on a command line.
    pub open spec fn written(self) -> Seq<char> {
        match self {
            Compression::Off => "none"@,
            Compression::Lz4 => "lz4"@,
            Compression::Lz4Hc { level } => "lz4hc,"@ + if level < 0 {
                seq!['-'] + text::decimal((-level) as nat)
            } else {
                text::decimal(level as nat)
            },
        }
    }

    pub fn name(self) -> (name: String)
        ensures
            name@ == self.written(),
    {
        let mut out: Vec<char> = Vec::new();
        match self {
            Compression::Off => text::append_text(&mut out, "none"),
            Compression::Lz4 => text::append_text(&mut out, "lz4"),
            Compression::Lz4Hc { level } => {
                text::append_text(&mut out, "lz4hc,");
                if level < 0 {
                    out.push('-');
                    text::push_decimal(&mut out, (-(level as i64)) as u64);
                } else {
                    text::push_decimal(&mut out, level as u64);
                }
            },
        }
        assert(out@ =~= self.written());
        text::string_of(out.as_slice())
    }
}

/// A valid compression, written and read again, is the same.
pub proof fn law_written_compression_reads_back(compression: Compression)
    requires
        compression matches Compression::Lz4Hc { level } ==> 1 <= level <= 12,
    ensures
        compression_of(compression.written()) == Ok::<Compression, CompressionError>(compression),
{
    reveal_strlit("none");
    reveal_strlit("lz4");
    reveal_strlit("lz4hc");
    reveal_strlit("lz4hc,");
    let s = compression.written();
    text::lemma_position(s, ',', 0);
    match compression {
        Compression::Off => {},
        Compression::Lz4 => {
            assert("none"@.len() != "lz4"@.len());
        },
        Compression::Lz4Hc { level } => {
            let digits = text::decimal(level as nat);
            text::lemma_decimal(level as nat);
            assert(s[5] == ',');
            assert(text::position(s, ',', 0) == 5) by {
                let at = text::position(s, ',', 0);
                if at > 5 {
                    assert(s[5] != ',');
                }
                if at < 5 {
                    assert(s[at] == "lz4hc,"@[at]);
                }
            }
            assert(s.take(5) =~= "lz4hc"@);
            assert(s.skip(6) =~= digits);
            assert(digits[0] != '-' && digits[0] != '+') by {
                assert(text::is_ascii_digit(digits[0]));
            }
            assert("none"@.len() != "lz4hc"@.len());
            assert("lz4"@.len() != "lz4hc"@.len());
        },
    }
}

// ---------------------------------------------------------------------------
// Full indexes
// ---------------------------------------------------------------------------

pub const Z_EROFS_ADVISE_COMPACTED_2B: u16 = 0x0001;

pub const Z_EROFS_ADVISE_BIG_PCLUSTER_1: u16 = 0x0002;

pub const Z_EROFS_ADVISE_BIG_PCLUSTER_2: u16 = 0x0004;

pub const Z_EROFS_LCLUSTER_TYPE_PLAIN: u8 = 0;

pub const Z_EROFS_LCLUSTER_TYPE_HEAD1: u8 = 1;

pub const Z_EROFS_LCLUSTER_TYPE_NONHEAD: u8 = 2;

pub const Z_EROFS_LI_D0_CBLKCNT: u16 = 0x0800;

pub const Z_EROFS_PCLUSTER_MAX_SIZE: u32 = 0x10_0000;

pub const Z_EROFS_PCLUSTER_MAX_DSIZE: usize = 0xc0_0000;

/// The eight bytes of an index: its kind, the offset in its logical cluster,
/// and four bytes more.
pub open spec fn index_record(kind: int, offset: int, value: Seq<u8>) -> Seq<u8> {
    bytes::bytes16(kind) + bytes::bytes16(offset) + value
}

/// The index of the logical cluster that lies `back` clusters after the one in
/// which its physical cluster of `blocks` blocks starts, and `forward` before
/// the one in which that ends.
pub open spec fn inner_record(offset: int, back: int, forward: int, blocks: int, big: bool) -> Seq<
    u8,
> {
    let delta = if back == 1 && big {
        blocks + 0x800
    } else if back < 0x7ff {
        back
    } else {
        0x7ff
    };
    index_record(
        Z_EROFS_LCLUSTER_TYPE_NONHEAD as int,
        offset,
        bytes::bytes16(delta) + bytes::bytes16(forward),
    )
}

/// The first `count` indexes of a physical cluster that reaches `forward`
/// logical clusters on.
pub open spec fn cluster_records(
    kind: int,
    offset: int,
    block: int,
    forward: int,
    blocks: int,
    big: bool,
    count: int,
) -> Seq<u8>
    decreases count,
{
    if count <= 0 {
        seq![]
    } else if count == 1 {
        index_record(kind, offset, bytes::bytes32(block))
    } else {
        cluster_records(kind, offset, block, forward, blocks, big, count - 1) + inner_record(
            offset,
            count - 1,
            forward - (count - 1),
            blocks,
            big,
        )
    }
}

/// The indexes so far, and how far into its logical cluster the next physical
/// cluster starts.
#[verifier::ext_equal]
pub struct IndexState {
    pub bytes: Seq<u8>,
    pub offset: int,
}

/// The state before the first cluster.
pub open spec fn no_indexes(big: bool) -> IndexState {
    IndexState {
        bytes: bytes::filled(0, 4) + bytes::bytes16(
            if big {
                2
            } else {
                0
            },
        ) + bytes::filled(0, 10),
        offset: 0,
    }
}

/// The state after one more physical cluster of `length` bytes of the file,
/// which is stored in `blocks` blocks from `block` on.
pub open spec fn indexed(
    state: IndexState,
    length: int,
    block: int,
    blocks: int,
    raw: bool,
    block_size: int,
    big: bool,
) -> IndexState {
    let kind = if raw {
        Z_EROFS_LCLUSTER_TYPE_PLAIN as int
    } else {
        Z_EROFS_LCLUSTER_TYPE_HEAD1 as int
    };
    let end = state.offset + length;
    let forward = end / block_size;
    if forward == 0 {
        IndexState {
            bytes: state.bytes + index_record(kind, state.offset, bytes::bytes32(block)),
            offset: 0,
        }
    } else {
        IndexState {
            bytes: state.bytes + cluster_records(
                kind,
                state.offset,
                block,
                forward,
                blocks,
                big,
                forward,
            ),
            offset: end % block_size,
        }
    }
}

/// The indexes with an end marker where the file ends inside of a cluster.
pub open spec fn ended(state: IndexState) -> Seq<u8> {
    if state.offset != 0 {
        state.bytes + index_record(
            Z_EROFS_LCLUSTER_TYPE_PLAIN as int,
            state.offset,
            bytes::bytes32(0),
        )
    } else {
        state.bytes
    }
}

struct FullIndexes {
    bytes: Vec<u8>,
    cluster_offset: usize,
    block_size: usize,
    big_pcluster: bool,
}

impl FullIndexes {
    spec fn state(&self) -> IndexState {
        IndexState { bytes: self.bytes@, offset: self.cluster_offset as int }
    }

    spec fn well_formed(&self) -> bool {
        512 <= self.block_size <= 4096 && self.cluster_offset < self.block_size
    }

    fn new(block_size: usize, big_pcluster: bool) -> (indexes: FullIndexes)
        requires
            512 <= block_size <= 4096,
        ensures
            indexes.well_formed(),
            indexes.state() == no_indexes(big_pcluster),
            indexes.block_size == block_size,
            indexes.big_pcluster == big_pcluster,
    {
        let mut bytes: Vec<u8> = Vec::new();
        bytes::push_filled(&mut bytes, 0, 4);
        bytes::push_u16(
            &mut bytes,
            if big_pcluster {
                Z_EROFS_ADVISE_BIG_PCLUSTER_1
            } else {
                0
            },
        );
        bytes::push_filled(&mut bytes, 0, 10);
        assert(bytes@ =~= no_indexes(big_pcluster).bytes);
        FullIndexes { bytes, cluster_offset: 0, block_size, big_pcluster }
    }

    fn append(&mut self, length: usize, block: u32, blocks: u16, raw: bool)
        requires
            old(self).well_formed(),
            0 < length <= 0xc0_0000,
            blocks < 0x800,
        ensures
            final(self).well_formed(),
            final(self).block_size == old(self).block_size,
            final(self).big_pcluster == old(self).big_pcluster,
            final(self).state() == indexed(
                old(self).state(),
                length as int,
                block as int,
                blocks as int,
                raw,
                old(self).block_size as int,
                old(self).big_pcluster,
            ),
    {
        let size: usize = self.block_size;
        let big = self.big_pcluster;
        let offset: usize = self.cluster_offset;
        let end: usize = offset + length;
        let forward: usize = end / size;
        let kind: u8 = if raw {
            Z_EROFS_LCLUSTER_TYPE_PLAIN
        } else {
            Z_EROFS_LCLUSTER_TYPE_HEAD1
        };
        proof {
            vstd::arithmetic::div_mod::lemma_fundamental_div_mod(end as int, size as int);
            vstd::arithmetic::div_mod::lemma_mod_bound(end as int, size as int);
            assert(forward <= 24584) by (nonlinear_arith)
                requires
                    end <= 0xc0_0000 + 4096,
                    size >= 512,
                    forward == end / size,
            ;
        }
        let ghost before = self.bytes@;
        bytes::push_u16(&mut self.bytes, kind as u16);
        bytes::push_u16(&mut self.bytes, offset as u16);
        bytes::push_u32(&mut self.bytes, block);
        assert(self.bytes@ =~= before + index_record(
            kind as int,
            offset as int,
            bytes::bytes32(block as int),
        ));
        if forward == 0 {
            self.cluster_offset = 0;
            return;
        }
        let mut back: usize = 1;
        while back < forward
            invariant
                1 <= back <= forward <= 24584,
                offset < 4096,
                blocks < 0x800,
                self.block_size == size,
                self.big_pcluster == big,
                self.bytes@ == before + cluster_records(
                    kind as int,
                    offset as int,
                    block as int,
                    forward as int,
                    blocks as int,
                    big,
                    back as int,
                ),
            decreases forward - back,
        {
            let delta: u16 = if back == 1 && big {
                blocks + Z_EROFS_LI_D0_CBLKCNT
            } else if back < 0x7ff {
                back as u16
            } else {
                0x7ff
            };
            let ghost records = self.bytes@;
            bytes::push_u16(&mut self.bytes, Z_EROFS_LCLUSTER_TYPE_NONHEAD as u16);
            bytes::push_u16(&mut self.bytes, offset as u16);
            bytes::push_u16(&mut self.bytes, delta);
            bytes::push_u16(&mut self.bytes, (forward - back) as u16);
            assert(self.bytes@ =~= records + inner_record(
                offset as int,
                back as int,
                forward - back,
                blocks as int,
                big,
            ));
            back += 1;
            assert(self.bytes@ =~= before + cluster_records(
                kind as int,
                offset as int,
                block as int,
                forward as int,
                blocks as int,
                big,
                back as int,
            ));
        }
        self.cluster_offset = end % size;
    }

    fn finish(self) -> (bytes: Vec<u8>)
        requires
            self.well_formed(),
        ensures
            bytes@ == ended(self.state()),
    {
        let ghost before = self.bytes@;
        let mut bytes = self.bytes;
        if self.cluster_offset != 0 {
            bytes::push_u16(&mut bytes, Z_EROFS_LCLUSTER_TYPE_PLAIN as u16);
            bytes::push_u16(&mut bytes, self.cluster_offset as u16);
            bytes::push_u32(&mut bytes, 0);
            assert(bytes@ =~= ended(self.state()));
        }
        bytes
    }
}

// ---------------------------------------------------------------------------
// Clusters
// ---------------------------------------------------------------------------

/// A compressed file: its indexes, and what they cover.
#[derive(Debug)]
pub struct CompressedFile {
    pub metadata: Vec<u8>,
    pub original_size: u64,
    pub physical_size: u64,
    pub compressed_blocks: u32,
    pub used_compression: bool,
}

/// Why a file cannot be compressed.
#[derive(Debug, Clone, Copy, PartialEq, Eq, Structural)]
pub enum CompressError {
    BlockSize,
    ClusterSize,
    Unaligned,
    Level,
    /// The compressor gave nothing that can be stored.
    Compressor,
    AddressOverflow,
}

/// A part of a file, and how it is stored.
pub struct Cluster {
    pub consumed: int,
    pub stored: Seq<u8>,
    pub raw: bool,
}

/// The least number of whole blocks that hold `length` bytes, in bytes.
pub open spec fn in_blocks(length: int, block_size: int) -> int {
    (length + block_size - 1) / block_size * block_size
}

/// What follows at `at` in the file, as much as is given to the compressor.
pub open spec fn window(input: Seq<u8>, at: int, limit: int) -> Seq<u8> {
    input.subrange(
        at,
        if at + limit < input.len() {
            at + limit
        } else {
            input.len() as int
        },
    )
}

/// The next block of the file as it is, filled up with zeros.
pub open spec fn plain_cluster(source: Seq<u8>, block_size: int) -> Cluster {
    let count = if source.len() < block_size {
        source.len() as int
    } else {
        block_size
    };
    Cluster {
        consumed: count,
        stored: source.take(count) + bytes::filled(0, block_size - count),
        raw: true,
    }
}

/// Compressed data, with zeros before it up to whole blocks.
pub open spec fn packed_cluster(consumed: int, packed: Seq<u8>, block_size: int) -> Cluster {
    Cluster {
        consumed,
        stored: bytes::filled(0, in_blocks(packed.len() as int, block_size) - packed.len())
            + packed,
        raw: false,
    }
}

/// What an answer of the compressor makes of the next part of the file: it is
/// stored as it is where compression saves no block.
pub open spec fn cluster_of(
    source: Seq<u8>,
    consumed: int,
    packed: Seq<u8>,
    block_size: int,
) -> Cluster {
    if in_blocks(packed.len() as int, block_size) >= consumed {
        plain_cluster(source, block_size)
    } else {
        packed_cluster(consumed, packed, block_size)
    }
}

/// True for the answers of the compressor that can be used.
pub open spec fn is_answer(source: Seq<u8>, capacity: int, consumed: int, packed: Seq<u8>) -> bool {
    0 < packed.len() <= capacity && 0 < consumed <= source.len()
}

/// True when `lz4` may compress the first `consumed` bytes to `packed`.
pub open spec fn answers<F: Fn(&[u8], usize) -> Option<(usize, Vec<u8>)>>(
    lz4: F,
    source: Seq<u8>,
    capacity: usize,
    consumed: int,
    packed: Seq<u8>,
) -> bool {
    exists|slice: &[u8], count: usize, data: Vec<u8>|
        slice@ == source && count == consumed && data@ == packed && #[trigger] call_ensures(
            lz4,
            (slice, capacity),
            Some((count, data)),
        )
}

/// True when cluster `c` may be the one that starts at `at`.
pub open spec fn is_cluster<F: Fn(&[u8], usize) -> Option<(usize, Vec<u8>)>>(
    lz4: F,
    input: Seq<u8>,
    at: int,
    block_size: int,
    cluster_size: usize,
    compression: Compression,
    c: Cluster,
) -> bool {
    let source = window(input, at, source_limit(cluster_size as int));
    if compression == Compression::Off || source.len() <= block_size {
        c == plain_cluster(source, block_size)
    } else {
        exists|consumed: int, packed: Seq<u8>|
            {
                &&& is_answer(source, cluster_size as int, consumed, packed)
                &&& answers(lz4, source, cluster_size, consumed, packed)
                &&& c == #[trigger] cluster_of(source, consumed, packed, block_size)
            }
    }
}

/// How much of the file is given to the compressor at a time.
pub open spec fn source_limit(cluster_size: int) -> int {
    if cluster_size * 256 < 0xc0_0000 {
        cluster_size * 256
    } else {
        0xc0_0000
    }
}

/// How much of the file the first `n` clusters hold.
pub open spec fn consumed_by(clusters: Seq<Cluster>, n: int) -> int
    decreases n,
{
    if n <= 0 {
        0
    } else {
        consumed_by(clusters, n - 1) + clusters[n - 1].consumed
    }
}

/// What is stored of the first `n` clusters.
pub open spec fn stored_by(clusters: Seq<Cluster>, n: int) -> Seq<u8>
    decreases n,
{
    if n <= 0 {
        seq![]
    } else {
        stored_by(clusters, n - 1) + clusters[n - 1].stored
    }
}

/// The indexes of the first `n` clusters, stored from `start` on.
pub open spec fn indexes_of(
    clusters: Seq<Cluster>,
    start: int,
    block_size: int,
    big: bool,
    n: int,
) -> IndexState
    decreases n,
{
    if n <= 0 {
        no_indexes(big)
    } else {
        let c = clusters[n - 1];
        indexed(
            indexes_of(clusters, start, block_size, big, n - 1),
            c.consumed,
            (start + stored_by(clusters, n - 1).len()) / block_size,
            c.stored.len() as int / block_size,
            c.raw,
            block_size,
            big,
        )
    }
}

/// True when cluster `i` starts where those before it end.
#[verifier::opaque]
pub open spec fn follows<F: Fn(&[u8], usize) -> Option<(usize, Vec<u8>)>>(
    lz4: F,
    input: Seq<u8>,
    block_size: int,
    cluster_size: usize,
    compression: Compression,
    clusters: Seq<Cluster>,
    i: int,
) -> bool {
    0 <= consumed_by(clusters, i) < input.len() && is_cluster(
        lz4,
        input,
        consumed_by(clusters, i),
        block_size,
        cluster_size,
        compression,
        clusters[i],
    )
}

/// True when `clusters` are the first ones of the file: each starts where the
/// one before ends.
pub open spec fn is_run<F: Fn(&[u8], usize) -> Option<(usize, Vec<u8>)>>(
    lz4: F,
    input: Seq<u8>,
    block_size: int,
    cluster_size: usize,
    compression: Compression,
    clusters: Seq<Cluster>,
) -> bool {
    forall|i: int|
        0 <= i < clusters.len() ==> #[trigger] follows(
            lz4,
            input,
            block_size,
            cluster_size,
            compression,
            clusters,
            i,
        )
}

/// True when a cluster is a compressed one.
pub open spec fn any_compressed(clusters: Seq<Cluster>) -> bool {
    exists|i: int| 0 <= i < clusters.len() && !(#[trigger] clusters[i]).raw
}

/// True when `file` and `stored` are what the clusters make of the whole file.
pub open spec fn is_compressed<F: Fn(&[u8], usize) -> Option<(usize, Vec<u8>)>>(
    lz4: F,
    input: Seq<u8>,
    start: int,
    block_size: int,
    cluster_size: usize,
    compression: Compression,
    clusters: Seq<Cluster>,
    file: CompressedFile,
    stored: Seq<u8>,
) -> bool {
    let n = clusters.len() as int;
    &&& is_run(lz4, input, block_size, cluster_size, compression, clusters)
    &&& consumed_by(clusters, n) == input.len()
    &&& are_addressable(clusters, start, block_size, n)
    &&& stored == stored_by(clusters, n)
    &&& stored.len() % (block_size as nat) == 0
    &&& file.metadata@ == ended(
        indexes_of(clusters, start, block_size, cluster_size > block_size, n),
    )
    &&& file.original_size == input.len()
    &&& file.physical_size == stored.len()
    &&& file.compressed_blocks == stored.len() / (block_size as nat)
    &&& file.used_compression == any_compressed(clusters)
}

/// True when `file` and `stored` are what some clusters make of the file.
pub open spec fn compresses_to<F: Fn(&[u8], usize) -> Option<(usize, Vec<u8>)>>(
    lz4: F,
    input: Seq<u8>,
    start: int,
    block_size: int,
    cluster_size: usize,
    compression: Compression,
    file: CompressedFile,
    stored: Seq<u8>,
) -> bool {
    exists|clusters: Seq<Cluster>|
        #[trigger] is_compressed(
            lz4,
            input,
            start,
            block_size,
            cluster_size,
            compression,
            clusters,
            file,
            stored,
        )
}

/// True when the first `n` clusters start at blocks with an address.
pub open spec fn are_addressable(
    clusters: Seq<Cluster>,
    start: int,
    block_size: int,
    n: int,
) -> bool {
    forall|i: int|
        0 <= i < n ==> !is_beyond(start + (#[trigger] stored_by(clusters, i)).len(), block_size)
}

/// True when the last of some first clusters of the file is the first to start
/// beyond the block addresses, or the clusters of the whole file are too many
/// blocks to count.
pub open spec fn overflows<F: Fn(&[u8], usize) -> Option<(usize, Vec<u8>)>>(
    lz4: F,
    input: Seq<u8>,
    start: int,
    block_size: int,
    cluster_size: usize,
    compression: Compression,
) -> bool {
    exists|clusters: Seq<Cluster>|
        {
            let n = clusters.len() as int;
            &&& #[trigger] is_run(lz4, input, block_size, cluster_size, compression, clusters)
            &&& {
                ||| {
                    &&& n > 0
                    &&& are_addressable(clusters, start, block_size, n - 1)
                    &&& is_beyond(start + stored_by(clusters, n - 1).len(), block_size)
                }
                ||| {
                    &&& consumed_by(clusters, n) == input.len()
                    &&& are_addressable(clusters, start, block_size, n)
                    &&& stored_by(clusters, n).len() as int / block_size > 0xffff_ffff
                }
            }
        }
}

/// True for the replies of the compressor that can be used.
pub open spec fn is_usable(
    reply: Option<(usize, Vec<u8>)>,
    source: Seq<u8>,
    capacity: int,
) -> bool {
    reply matches Some((consumed, packed)) && is_answer(
        source,
        capacity,
        consumed as int,
        packed@,
    )
}

/// True when `lz4` is asked for the part of the file at `at`, and may reply with
/// nothing that can be stored.
pub open spec fn refuses<F: Fn(&[u8], usize) -> Option<(usize, Vec<u8>)>>(
    lz4: F,
    input: Seq<u8>,
    at: int,
    block_size: int,
    cluster_size: usize,
    compression: Compression,
) -> bool {
    let source = window(input, at, source_limit(cluster_size as int));
    &&& compression != Compression::Off
    &&& source.len() > block_size
    &&& exists|slice: &[u8], reply: Option<(usize, Vec<u8>)>|
        slice@ == source && !is_usable(reply, source, cluster_size as int)
            && #[trigger] call_ensures(lz4, (slice, cluster_size), reply)
}

/// True when `lz4` may refuse what follows some first clusters of the file, all
/// of which have an address.
pub open spec fn gives_up<F: Fn(&[u8], usize) -> Option<(usize, Vec<u8>)>>(
    lz4: F,
    input: Seq<u8>,
    start: int,
    block_size: int,
    cluster_size: usize,
    compression: Compression,
) -> bool {
    exists|clusters: Seq<Cluster>|
        {
            &&& #[trigger] is_run(lz4, input, block_size, cluster_size, compression, clusters)
            &&& are_addressable(clusters, start, block_size, clusters.len() as int)
            &&& refuses(
                lz4,
                input,
                consumed_by(clusters, clusters.len() as int),
                block_size,
                cluster_size,
                compression,
            )
        }
}

/// The block sizes that an image may have.
pub open spec fn is_block_size(n: int) -> bool {
    n == 512 || n == 1024 || n == 2048 || n == 4096
}

/// The sizes that a physical cluster may have.
pub open spec fn is_cluster_size(n: int, block_size: int) -> bool {
    block_size <= n <= 0x10_0000 && n % block_size == 0 && n / block_size < 0x800
}

/// True when the address of the block at `position` is too large for an index.
pub open spec fn is_beyond(position: int, block_size: int) -> bool {
    position / block_size > 0xffff_ffff
}

/// Rounding up to whole blocks adds less than a block.
pub proof fn lemma_in_blocks(length: int, block_size: int)
    requires
        is_block_size(block_size),
        0 <= length,
    ensures
        length <= in_blocks(length, block_size) < length + block_size,
        in_blocks(length, block_size) % block_size == 0,
        length > 0 ==> in_blocks(length, block_size) >= block_size,
        in_blocks(length, block_size) / block_size == (length + block_size - 1) / block_size,
{
    let n = length + block_size - 1;
    vstd::arithmetic::div_mod::lemma_fundamental_div_mod(n, block_size);
    vstd::arithmetic::div_mod::lemma_mod_bound(n, block_size);
    vstd::arithmetic::mul::lemma_mul_is_commutative(n / block_size, block_size);
    vstd::arithmetic::div_mod::lemma_mod_multiples_basic(n / block_size, block_size);
    vstd::arithmetic::div_mod::lemma_div_multiples_vanish(n / block_size, block_size);
    if length > 0 {
        assert(n / block_size * block_size >= block_size) by (nonlinear_arith)
            requires
                n >= block_size,
                block_size > 0,
        ;
    }
}

fn round_blocks(length: usize, block_size: usize) -> (rounded: usize)
    requires
        is_block_size(block_size as int),
        length <= 0x10_0000,
    ensures
        rounded == in_blocks(length as int, block_size as int),
        rounded % block_size == 0,
        length <= rounded < length + block_size,
        length > 0 ==> rounded >= block_size,
{
    proof {
        lemma_in_blocks(length as int, block_size as int);
    }
    (length + block_size - 1) / block_size * block_size
}

/// Checks the sizes and the level that a file is to be compressed with.
pub open spec fn settings_error(
    start: int,
    block_size: int,
    cluster_size: int,
    compression: Compression,
) -> Option<CompressError> {
    if !is_block_size(block_size) {
        Some(CompressError::BlockSize)
    } else if !is_cluster_size(cluster_size, block_size) {
        Some(CompressError::ClusterSize)
    } else if start % block_size != 0 {
        Some(CompressError::Unaligned)
    } else if compression matches Compression::Lz4Hc { level } && !(1 <= level <= 12) {
        Some(CompressError::Level)
    } else {
        None
    }
}

fn check_settings(start: u64, block_size: u32, cluster_size: u32, compression: Compression) -> (error:
    Option<CompressError>)
    ensures
        error == settings_error(
            start as int,
            block_size as int,
            cluster_size as int,
            compression,
        ),
{
    if !(block_size == 512 || block_size == 1024 || block_size == 2048 || block_size == 4096) {
        return Some(CompressError::BlockSize);
    }
    if !(cluster_size >= block_size && cluster_size % block_size == 0 && cluster_size
        <= Z_EROFS_PCLUSTER_MAX_SIZE && cluster_size / block_size < 0x800) {
        return Some(CompressError::ClusterSize);
    }
    if start % block_size as u64 != 0 {
        return Some(CompressError::Unaligned);
    }
    if let Compression::Lz4Hc { level } = compression {
        if level < 1 || level > 12 {
            return Some(CompressError::Level);
        }
    }
    None
}

/// One step of a compression: the next part of the file, as it is stored.
struct Step {
    consumed: usize,
    stored: Vec<u8>,
    raw: bool,
}

impl Step {
    spec fn cluster(&self) -> Cluster {
        Cluster { consumed: self.consumed as int, stored: self.stored@, raw: self.raw }
    }
}

fn store_plain(source: &[u8], block_size: usize) -> (step: Step)
    requires
        is_block_size(block_size as int),
        source@.len() > 0,
    ensures
        step.cluster() == plain_cluster(source@, block_size as int),
        0 < step.consumed <= source@.len(),
        step.consumed <= block_size,
        step.stored@.len() == block_size,
{
    let count: usize = if source.len() < block_size {
        source.len()
    } else {
        block_size
    };
    let mut stored: Vec<u8> = Vec::new();
    bytes::push_all(&mut stored, &source[0..count]);
    bytes::push_filled(&mut stored, 0, block_size - count);
    assert(stored@ =~= plain_cluster(source@, block_size as int).stored);
    Step { consumed: count, stored, raw: true }
}

/// Stores a part of the file as the compressor's answer allows.
fn store_answer(source: &[u8], consumed: usize, packed: &[u8], block_size: usize) -> (step: Step)
    requires
        is_block_size(block_size as int),
        is_answer(source@, 0x10_0000, consumed as int, packed@),
    ensures
        step.cluster() == cluster_of(source@, consumed as int, packed@, block_size as int),
        0 < step.consumed <= source@.len(),
        0 < step.stored@.len() <= 0x10_0000 + 4096,
        step.stored@.len() == in_blocks(packed@.len() as int, block_size as int)
            || step.stored@.len() == block_size,
{
    let padded: usize = round_blocks(packed.len(), block_size);
    if padded >= consumed {
        return store_plain(source, block_size);
    }
    let mut stored: Vec<u8> = Vec::new();
    bytes::push_filled(&mut stored, 0, padded - packed.len());
    bytes::push_all(&mut stored, packed);
    Step { consumed, stored, raw: false }
}

/// Stores the next part of the file, which reaches from `at` up to `end`.
fn store_next<F: Fn(&[u8], usize) -> Option<(usize, Vec<u8>)>>(
    input: &[u8],
    at: usize,
    end: usize,
    block_size: usize,
    cluster_size: usize,
    compression: Compression,
    lz4: &F,
) -> (step: Option<Step>)
    requires
        forall|slice: &[u8], capacity: usize| call_requires(*lz4, (slice, capacity)),
        is_block_size(block_size as int),
        is_cluster_size(cluster_size as int, block_size as int),
        at < end <= input@.len(),
        input@.subrange(at as int, end as int) == window(
            input@,
            at as int,
            source_limit(cluster_size as int),
        ),
    ensures
        match step {
            Some(found) => {
                &&& is_cluster(
                    *lz4,
                    input@,
                    at as int,
                    block_size as int,
                    cluster_size,
                    compression,
                    found.cluster(),
                )
                &&& 0 < found.consumed <= end - at
                &&& found.stored@.len() % (block_size as nat) == 0
                &&& found.stored@.len() / (block_size as nat) < 0x800
            },
            None => refuses(
                *lz4,
                input@,
                at as int,
                block_size as int,
                cluster_size,
                compression,
            ),
        },
{
    let source = &input[at..end];
    if compression == Compression::Off || source.len() <= block_size {
        let step = store_plain(source, block_size);
        proof {
            vstd::arithmetic::div_mod::lemma_mod_self_0(block_size as int);
            lemma_few_blocks(step.stored@.len() as int, block_size as int, cluster_size as int);
        }
        return Some(step);
    }
    let reply = lz4(source, cluster_size);
    let ghost given = reply;
    assert(call_ensures(*lz4, (source, cluster_size), given));
    match reply {
        None => None,
        Some((consumed, packed)) => {
            if packed.len() == 0 || packed.len() > cluster_size || consumed == 0 || consumed
                > source.len() {
                return None;
            }
            let step = store_answer(source, consumed, packed.as_slice(), block_size);
            proof {
                assert(answers(*lz4, source@, cluster_size, consumed as int, packed@));
                assert(is_answer(source@, cluster_size as int, consumed as int, packed@));
                assert(step.cluster() == cluster_of(
                    source@,
                    consumed as int,
                    packed@,
                    block_size as int,
                ));
                lemma_in_blocks(packed@.len() as int, block_size as int);
                vstd::arithmetic::div_mod::lemma_mod_self_0(block_size as int);
                lemma_blocks_grow(packed@.len() as int, cluster_size as int, block_size as int);
                lemma_few_blocks(step.stored@.len() as int, block_size as int, cluster_size as int);
            }
            Some(step)
        },
    }
}

/// Compresses a file that is stored from `start` on. `lz4` compresses as much
/// of the bytes as fits in the given capacity, and says how many those are.
pub fn compress_file<F: Fn(&[u8], usize) -> Option<(usize, Vec<u8>)>>(
    input: &[u8],
    start: u64,
    block_size: u32,
    cluster_size: u32,
    compression: Compression,
    lz4: &F,
) -> (compressed: Result<(CompressedFile, Vec<u8>), CompressError>)
    requires
        forall|slice: &[u8], capacity: usize| call_requires(*lz4, (slice, capacity)),
    ensures
        match settings_error(
            start as int,
            block_size as int,
            cluster_size as int,
            compression,
        ) {
            Some(error) => compressed matches Err(found) && found == error,
            None => match compressed {
                Ok((file, stored)) => compresses_to(
                    *lz4,
                    input@,
                    start as int,
                    block_size as int,
                    cluster_size as usize,
                    compression,
                    file,
                    stored@,
                ),
                Err(CompressError::Compressor) => gives_up(
                    *lz4,
                    input@,
                    start as int,
                    block_size as int,
                    cluster_size as usize,
                    compression,
                ),
                Err(CompressError::AddressOverflow) => overflows(
                    *lz4,
                    input@,
                    start as int,
                    block_size as int,
                    cluster_size as usize,
                    compression,
                ),
                Err(_) => false,
            },
        },
{
    if let Some(error) = check_settings(start, block_size, cluster_size, compression) {
        return Err(error);
    }
    let size: usize = block_size as usize;
    let capacity: usize = cluster_size as usize;
    let limit: usize = if capacity * 256 < Z_EROFS_PCLUSTER_MAX_DSIZE {
        capacity * 256
    } else {
        Z_EROFS_PCLUSTER_MAX_DSIZE
    };
    let mut indexes = FullIndexes::new(size, cluster_size > block_size);
    let mut stored: Vec<u8> = Vec::new();
    let mut at: usize = 0;
    let mut used_compression = false;
    let ghost mut clusters: Seq<Cluster> = seq![];
    let ghost big = cluster_size > block_size;
    while at < input.len()
        invariant
            forall|slice: &[u8], capacity: usize| call_requires(*lz4, (slice, capacity)),
            is_block_size(size as int),
            is_cluster_size(capacity as int, size as int),
            size == block_size,
            capacity == cluster_size,
            start % (size as u64) == 0,
            limit == source_limit(capacity as int),
            big == (cluster_size > block_size),
            settings_error(start as int, block_size as int, cluster_size as int, compression)
                is None,
            indexes.well_formed(),
            indexes.block_size == size,
            indexes.big_pcluster == big,
            indexes.state() == indexes_of(
                clusters,
                start as int,
                size as int,
                big,
                clusters.len() as int,
            ),
            is_run(*lz4, input@, size as int, capacity, compression, clusters),
            at == consumed_by(clusters, clusters.len() as int),
            at <= input@.len(),
            stored@ == stored_by(clusters, clusters.len() as int),
            stored@.len() % (size as nat) == 0,
            used_compression == any_compressed(clusters),
            are_addressable(clusters, start as int, size as int, clusters.len() as int),
        decreases input@.len() - at,
    {
        let end: usize = if input.len() - at > limit {
            at + limit
        } else {
            input.len()
        };
        let step = match store_next(input, at, end, size, capacity, compression, lz4) {
            Some(step) => step,
            None => {
                assert(gives_up(*lz4, input@, start as int, size as int, capacity, compression));
                return Err(CompressError::Compressor);
            },
        };
        let ghost c = step.cluster();
        let ghost n = clusters.len() as int;
        let ghost next = clusters.push(c);
        let blocks: usize = step.stored.len() / size;
        proof {
            lemma_run_grows(*lz4, input@, size as int, capacity, compression, clusters, c);
            lemma_prefix_same(clusters, next, start as int, size as int, big, n);
            lemma_any_compressed(clusters, c);
            vstd::arithmetic::div_mod::lemma_add_mod_noop(
                stored@.len() as int,
                step.stored@.len() as int,
                size as int,
            );
        }
        proof {
            assert forall|i: int| 0 <= i <= n implies #[trigger] stored_by(next, i) == stored_by(
                clusters,
                i,
            ) by {
                lemma_consumed_same(clusters, next, i);
            }
        }
        let block_address: u128 = (start as u128 + stored.len() as u128) / block_size as u128;
        if block_address > 0xffff_ffff {
            assert(overflows(*lz4, input@, start as int, size as int, capacity, compression)) by {
                assert(next.len() == n + 1);
                assert(is_run(*lz4, input@, size as int, capacity, compression, next));
                assert(is_beyond(start + stored_by(next, n).len(), size as int));
                assert(are_addressable(next, start as int, size as int, n));
            }
            return Err(CompressError::AddressOverflow);
        }
        indexes.append(step.consumed, block_address as u32, blocks as u16, step.raw);
        bytes::push_all(&mut stored, step.stored.as_slice());
        used_compression = used_compression || !step.raw;
        at = at + step.consumed;
        proof {
            clusters = next;
        }
    }
    let physical: u64 = stored.len() as u64;
    let count: u64 = physical / block_size as u64;
    if count > 0xffff_ffff {
        assert(overflows(*lz4, input@, start as int, size as int, capacity, compression));
        return Err(CompressError::AddressOverflow);
    }
    let file = CompressedFile {
        metadata: indexes.finish(),
        original_size: at as u64,
        physical_size: physical,
        compressed_blocks: count as u32,
        used_compression,
    };
    assert(is_compressed(
        *lz4,
        input@,
        start as int,
        size as int,
        capacity,
        compression,
        clusters,
        file,
        stored@,
    ));
    assert(compresses_to(
        *lz4,
        input@,
        start as int,
        size as int,
        capacity,
        compression,
        file,
        stored@,
    ));
    Ok((file, stored))
}

proof fn lemma_any_compressed(clusters: Seq<Cluster>, c: Cluster)
    ensures
        any_compressed(clusters.push(c)) == (any_compressed(clusters) || !c.raw),
{
    let next = clusters.push(c);
    if any_compressed(clusters) {
        let i = choose|i: int| 0 <= i < clusters.len() && !(#[trigger] clusters[i]).raw;
        assert(next[i] == clusters[i]);
    }
    if !c.raw {
        assert(next[clusters.len() as int] == c);
    }
    if any_compressed(next) && c.raw {
        let i = choose|i: int| 0 <= i < next.len() && !(#[trigger] next[i]).raw;
        assert(clusters[i] == next[i]);
    }
}

proof fn lemma_blocks_grow(a: int, b: int, block_size: int)
    requires
        is_block_size(block_size),
        0 <= a <= b,
    ensures
        in_blocks(a, block_size) <= in_blocks(b, block_size),
{
    assert(in_blocks(a, block_size) <= in_blocks(b, block_size)) by (nonlinear_arith)
        requires
            0 <= a <= b,
            block_size > 0,
            in_blocks(a, block_size) == (a + block_size - 1) / block_size * block_size,
            in_blocks(b, block_size) == (b + block_size - 1) / block_size * block_size,
    ;
}

/// A cluster that starts where a run ends makes the run longer.
proof fn lemma_run_grows<F: Fn(&[u8], usize) -> Option<(usize, Vec<u8>)>>(
    lz4: F,
    input: Seq<u8>,
    block_size: int,
    cluster_size: usize,
    compression: Compression,
    clusters: Seq<Cluster>,
    c: Cluster,
)
    requires
        is_run(lz4, input, block_size, cluster_size, compression, clusters),
        0 <= consumed_by(clusters, clusters.len() as int) < input.len(),
        is_cluster(
            lz4,
            input,
            consumed_by(clusters, clusters.len() as int),
            block_size,
            cluster_size,
            compression,
            c,
        ),
    ensures
        is_run(lz4, input, block_size, cluster_size, compression, clusters.push(c)),
        consumed_by(clusters.push(c), clusters.len() as int + 1) == consumed_by(
            clusters,
            clusters.len() as int,
        ) + c.consumed,
{
    let next = clusters.push(c);
    assert forall|i: int| 0 <= i <= clusters.len() implies consumed_by(next, i) == consumed_by(
        clusters,
        i,
    ) by {
        lemma_consumed_same(clusters, next, i);
    }
    assert forall|i: int| 0 <= i < next.len() implies #[trigger] follows(
        lz4,
        input,
        block_size,
        cluster_size,
        compression,
        next,
        i,
    ) by {
        reveal(follows);
        if i < clusters.len() {
            assert(follows(lz4, input, block_size, cluster_size, compression, clusters, i));
            assert(clusters[i] == next[i]);
        }
    }
    assert(next[next.len() - 1] == c);
}

proof fn lemma_consumed_same(a: Seq<Cluster>, b: Seq<Cluster>, n: int)
    requires
        0 <= n <= a.len(),
        n <= b.len(),
        forall|i: int| 0 <= i < n ==> a[i] == b[i],
    ensures
        consumed_by(a, n) == consumed_by(b, n),
        stored_by(a, n) == stored_by(b, n),
    decreases n,
{
    if n > 0 {
        lemma_consumed_same(a, b, n - 1);
    }
}

/// Another cluster at the end changes nothing of those before.
proof fn lemma_prefix_same(
    clusters: Seq<Cluster>,
    next: Seq<Cluster>,
    start: int,
    block_size: int,
    big: bool,
    n: int,
)
    requires
        0 <= n <= clusters.len(),
        n <= next.len(),
        forall|i: int| 0 <= i < n ==> clusters[i] == next[i],
    ensures
        stored_by(next, n) == stored_by(clusters, n),
        indexes_of(next, start, block_size, big, n) == indexes_of(
            clusters,
            start,
            block_size,
            big,
            n,
        ),
    decreases n,
{
    lemma_consumed_same(clusters, next, n);
    if n > 0 {
        lemma_prefix_same(clusters, next, start, block_size, big, n - 1);
    }
}

proof fn lemma_few_blocks(stored: int, block_size: int, cluster_size: int)
    requires
        is_block_size(block_size),
        is_cluster_size(cluster_size, block_size),
        0 <= stored,
        stored <= in_blocks(cluster_size, block_size) || stored == block_size,
    ensures
        stored / block_size < 0x800,
{
    lemma_in_blocks(cluster_size, block_size);
    vstd::arithmetic::div_mod::lemma_fundamental_div_mod(cluster_size, block_size);
    assert(stored / block_size <= cluster_size / block_size) by (nonlinear_arith)
        requires
            stored <= cluster_size,
            block_size > 0,
    ;
}

/// An index has eight bytes: its kind, which is 0 for a plain cluster, 1 for a
/// compressed one and 2 for the blocks that follow in one, where in its block the
/// cluster starts, and from which block on it is stored.
pub proof fn law_indexes_state_clusters(kind: int, offset: int, block: int)
    requires
        0 <= kind <= 0xffff,
        0 <= offset <= 0xffff,
        0 <= block <= 0xffff_ffff,
    ensures
        ({
            let r = index_record(kind, offset, bytes::bytes32(block));
            &&& r.len() == 8
            &&& bytes::le16(r, 0) == kind
            &&& bytes::le16(r, 2) == offset
            &&& bytes::le32(r, 4) == block
        }),
        Z_EROFS_LCLUSTER_TYPE_PLAIN == 0,
        Z_EROFS_LCLUSTER_TYPE_HEAD1 == 1,
        Z_EROFS_LCLUSTER_TYPE_NONHEAD == 2,
{
    bytes::lemma_bytes16(kind);
    bytes::lemma_bytes16(offset);
    bytes::lemma_bytes32(block);
    let r = index_record(kind, offset, bytes::bytes32(block));
    let b = bytes::bytes32(block);
    assert(r[0] == bytes::bytes16(kind)[0] && r[1] == bytes::bytes16(kind)[1]);
    assert(r[2] == bytes::bytes16(offset)[0] && r[3] == bytes::bytes16(offset)[1]);
    assert(r[4] == b[0] && r[5] == b[1] && r[6] == b[2] && r[7] == b[3]);
}

/// The index of a block that follows in a cluster states how many blocks before it
/// the cluster starts and how many behind it it ends; the first one behind the start
/// of a big cluster states how many blocks that is stored in, and 2048, in place of
/// the first.
pub proof fn law_inner_indexes_state_distances(
    offset: int,
    back: int,
    forward: int,
    blocks: int,
    big: bool,
)
    requires
        0 <= offset <= 0xffff,
        1 <= back,
        0 <= forward <= 0xffff,
        0 <= blocks <= 2047,
    ensures
        ({
            let r = inner_record(offset, back, forward, blocks, big);
            &&& r.len() == 8
            &&& bytes::le16(r, 0) == 2
            &&& bytes::le16(r, 2) == offset
            &&& back == 1 && big ==> bytes::le16(r, 4) == blocks + 2048
            &&& !(back == 1 && big) && back < 2047 ==> bytes::le16(r, 4) == back
            &&& back >= 2047 ==> bytes::le16(r, 4) == 2047
            &&& bytes::le16(r, 6) == forward
        }),
{
    let delta = if back == 1 && big {
        blocks + 0x800
    } else if back < 0x7ff {
        back
    } else {
        0x7ff
    };
    let r = inner_record(offset, back, forward, blocks, big);
    bytes::lemma_bytes16(2);
    bytes::lemma_bytes16(offset);
    bytes::lemma_bytes16(delta);
    bytes::lemma_bytes16(forward);
    assert(r[0] == bytes::bytes16(2)[0] && r[1] == bytes::bytes16(2)[1]);
    assert(r[2] == bytes::bytes16(offset)[0] && r[3] == bytes::bytes16(offset)[1]);
    assert(r[4] == bytes::bytes16(delta)[0] && r[5] == bytes::bytes16(delta)[1]);
    assert(r[6] == bytes::bytes16(forward)[0] && r[7] == bytes::bytes16(forward)[1]);
}

/// Indexes stand behind sixteen bytes, which say with the number 2 at 4 that there
/// may be big clusters, and are otherwise zero.
pub proof fn law_indexes_have_a_header(big: bool)
    ensures
        ({
            let head = no_indexes(big).bytes;
            &&& head.len() == 16 && no_indexes(big).offset == 0
            &&& bytes::le16(head, 4) == if big {
                2int
            } else {
                0int
            }
            &&& forall|i: int| 0 <= i < 16 && i != 4 ==> #[trigger] head[i] == 0
        }),
{
    bytes::lemma_bytes16(2);
    bytes::lemma_bytes16(0);
    let head = no_indexes(big).bytes;
    assert(head[4] == bytes::bytes16(if big {
        2int
    } else {
        0int
    })[0]);
    assert(head[5] == 0);
}

/// A part of a file is stored compressed only where that takes fewer bytes, in whole
/// blocks, than it has; the compressed bytes then end the blocks, with zeros before
/// them. Else the next block is stored as it is, with zeros behind it.
pub proof fn law_clusters_save_blocks(
    source: Seq<u8>,
    consumed: int,
    packed: Seq<u8>,
    block_size: int,
)
    requires
        0 < block_size,
        0 < consumed <= source.len(),
    ensures
        ({
            let c = cluster_of(source, consumed, packed, block_size);
            let space = (packed.len() + block_size - 1) / block_size * block_size;
            &&& c.raw <==> space >= consumed
            &&& !c.raw ==> c.consumed == consumed && c.stored.len() == space && c.stored.skip(
                space - packed.len(),
            ) == packed && forall|i: int|
                0 <= i < space - packed.len() ==> #[trigger] c.stored[i] == 0
            &&& c.raw ==> c.stored.len() == block_size && c.consumed <= block_size && (c.consumed
                == block_size || c.consumed == source.len()) && c.stored.take(c.consumed)
                == source.take(c.consumed) && forall|i: int|
                c.consumed <= i < block_size ==> #[trigger] c.stored[i] == 0
        }),
{
    let c = cluster_of(source, consumed, packed, block_size);
    let n = packed.len() + block_size - 1;
    let q = n / block_size;
    assert(q * block_size <= n < q * block_size + block_size) by (nonlinear_arith)
        requires
            block_size > 0,
            q == n / block_size,
    ;
    let space = q * block_size;
    if c.raw {
        assert(c.stored.take(c.consumed) =~= source.take(c.consumed));
    } else {
        assert(c.stored.skip(space - packed.len()) =~= packed);
    }
}

/// Settings are valid where a block has 512, 1024, 2048 or 4096 bytes, a cluster is
/// some whole blocks of at most 1 MiB, the data starts at a whole block and the level
/// of LZ4HC is 1 to 12.
pub proof fn law_valid_settings(
    start: int,
    block_size: int,
    cluster_size: int,
    compression: Compression,
)
    ensures
        settings_error(start, block_size, cluster_size, compression) is None ==> {
            &&& block_size == 512 || block_size == 1024 || block_size == 2048 || block_size == 4096
            &&& block_size <= cluster_size <= 1_048_576 && cluster_size % block_size == 0
            &&& start % block_size == 0
            &&& compression matches Compression::Lz4Hc { level } ==> 1 <= level <= 12
        },
        (block_size == 512 || block_size == 1024 || block_size == 2048 || block_size == 4096)
            && block_size <= cluster_size <= 1_048_576 && cluster_size % block_size == 0
            && cluster_size / block_size <= 2047 && start % block_size == 0 && (
        compression matches Compression::Lz4Hc { level } ==> 1 <= level <= 12) ==> settings_error(
            start,
            block_size,
            cluster_size,
            compression,
        ) is None,
{
}

} // verus!
