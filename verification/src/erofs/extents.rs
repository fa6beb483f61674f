//! How a reader finds the data of a compressed file again: each block of the
//! file has an index, and the indexes lead to the clusters in the image.

use vstd::prelude::*;

use crate::bytes;
use crate::erofs::compression::{
    self, Cluster, Compression, Z_EROFS_LCLUSTER_TYPE_HEAD1, Z_EROFS_LCLUSTER_TYPE_NONHEAD,
    Z_EROFS_LCLUSTER_TYPE_PLAIN,
};
use crate::erofs::indexes;
use crate::erofs::reading;

verus! {

/// What an index says of its block of the file.
#[verifier::ext_equal]
pub struct Index {
    /// Whether a cluster starts in the block, and which.
    pub kind: int,
    /// Where in the block a cluster starts; otherwise a distance, or 0x800 and
    /// the number of blocks of the cluster.
    pub low: int,
    /// The block of the image from which on a cluster that starts is stored.
    pub block: int,
}

/// True when a cluster starts in the block.
pub open spec fn starts_cluster(x: Index) -> bool {
    x.kind != Z_EROFS_LCLUSTER_TYPE_NONHEAD
}

/// The next block after `i` in which a cluster starts, or the end of the list.
pub open spec fn next_start(list: Seq<Index>, i: int) -> int
    decreases list.len() - i,
{
    if i + 1 >= list.len() {
        list.len() as int
    } else if starts_cluster(list[i + 1]) {
        i + 1
    } else {
        next_start(list, i + 1)
    }
}

proof fn lemma_next_start(list: Seq<Index>, i: int, next: int)
    requires
        i < next <= list.len(),
        forall|k: int| i < k < next ==> !starts_cluster(#[trigger] list[k]),
        next < list.len() ==> starts_cluster(list[next]),
    ensures
        next_start(list, i) == next,
    decreases list.len() - i,
{
    if i + 1 < next {
        assert(!starts_cluster(list[i + 1]));
        lemma_next_start(list, i + 1, next);
    }
}

pub proof fn lemma_start_follows(list: Seq<Index>, i: int)
    requires
        i < list.len(),
    ensures
        i < next_start(list, i) <= list.len(),
    decreases list.len() - i,
{
    if i + 1 < list.len() {
        lemma_start_follows(list, i + 1);
    }
}

/// Where in a file of `size` bytes the cluster of block `i` starts.
pub open spec fn cluster_start(list: Seq<Index>, size: int, block_size: int, i: int) -> int {
    if i >= list.len() {
        size
    } else {
        i * block_size + list[i].low
    }
}

/// How many blocks the cluster of block `i` is stored in: where clusters may
/// have more than one, the next index may state the number.
pub open spec fn cluster_blocks(list: Seq<Index>, big: bool, i: int) -> int {
    if big && i + 1 < list.len() && !starts_cluster(list[i + 1]) && list[i + 1].low >= 0x800 {
        list[i + 1].low - 0x800
    } else {
        1
    }
}

/// What a reader makes of the cluster of block `i`.
pub open spec fn read_extent(
    image: Seq<u8>,
    list: Seq<Index>,
    size: int,
    block_size: int,
    big: bool,
    unpack: spec_fn(Seq<u8>) -> Seq<u8>,
    i: int,
) -> Seq<u8> {
    let from = list[i].block * block_size;
    let length = cluster_start(list, size, block_size, next_start(list, i)) - cluster_start(
        list,
        size,
        block_size,
        i,
    );
    let stored = image.subrange(from, from + cluster_blocks(list, big, i) * block_size);
    if list[i].kind == Z_EROFS_LCLUSTER_TYPE_PLAIN {
        stored.take(length)
    } else {
        unpack(reading::unpadded(stored))
    }
}

/// What a reader makes of the clusters from that of block `i` on. One that
/// starts at the end of the file only marks it.
pub open spec fn read_extents(
    image: Seq<u8>,
    list: Seq<Index>,
    size: int,
    block_size: int,
    big: bool,
    unpack: spec_fn(Seq<u8>) -> Seq<u8>,
    i: int,
) -> Seq<u8>
    decreases list.len() - i,
{
    if i < 0 || i >= list.len() || cluster_start(list, size, block_size, i) >= size {
        seq![]
    } else {
        proof {
            lemma_start_follows(list, i);
        }
        read_extent(image, list, size, block_size, big, unpack, i) + read_extents(
            image,
            list,
            size,
            block_size,
            big,
            unpack,
            next_start(list, i),
        )
    }
}

// ---------------------------------------------------------------------------
// Indexes that find clusters
// ---------------------------------------------------------------------------

/// The block of the file after those that have an index of cluster `j` only.
pub open spec fn index_end(clusters: Seq<Cluster>, block_size: int, j: int) -> int {
    let first = compression::consumed_by(clusters, j) / block_size;
    let end = compression::consumed_by(clusters, j + 1) / block_size;
    if end == first {
        first + 1
    } else {
        end
    }
}

/// True when the list says of cluster `j` where it starts, in the file and in
/// an image that stores the clusters from `start` on, and where it ends.
pub open spec fn finds(
    list: Seq<Index>,
    clusters: Seq<Cluster>,
    start: int,
    block_size: int,
    big: bool,
    j: int,
) -> bool {
    let at = compression::consumed_by(clusters, j);
    let end = compression::consumed_by(clusters, j + 1);
    let first = at / block_size;
    let next = index_end(clusters, block_size, j);
    &&& 0 <= first < next <= list.len()
    &&& list[first].kind == if clusters[j].raw {
        Z_EROFS_LCLUSTER_TYPE_PLAIN as int
    } else {
        Z_EROFS_LCLUSTER_TYPE_HEAD1 as int
    }
    &&& list[first].low == at % block_size
    &&& list[first].block == (start + compression::stored_by(clusters, j).len()) / block_size
    &&& forall|k: int| first < k < next ==> !starts_cluster(#[trigger] list[k])
    &&& next < list.len() ==> starts_cluster(list[next]) && list[next].low == end % block_size
    &&& big && first + 1 < next ==> list[first + 1].low == 0x800 + clusters[j].stored.len() as int
        / block_size
}

/// True when the list finds every cluster.
pub open spec fn finds_all(
    list: Seq<Index>,
    clusters: Seq<Cluster>,
    start: int,
    block_size: int,
    big: bool,
) -> bool {
    forall|j: int|
        0 <= j < clusters.len() ==> #[trigger] finds(list, clusters, start, block_size, big, j)
}

/// The blocks that a cluster is stored in.
#[verifier::rlimit(50)]
#[verifier::spinoff_prover]
proof fn lemma_stored_blocks<F: Fn(&[u8], usize) -> Option<(usize, Vec<u8>)>>(
    lz4: F,
    input: Seq<u8>,
    at: int,
    block_size: int,
    cluster_size: usize,
    method: Compression,
    c: Cluster,
)
    requires
        0 <= at < input.len(),
        compression::is_block_size(block_size),
        compression::is_cluster_size(cluster_size as int, block_size),
        compression::is_cluster(lz4, input, at, block_size, cluster_size, method, c),
    ensures
        c.stored.len() as int % block_size == 0,
        block_size <= c.stored.len() <= cluster_size,
        c.consumed < 2 * block_size ==> c.stored.len() == block_size,
        c.stored.len() as int / block_size < 0x800,
{
    let source = compression::window(input, at, compression::source_limit(cluster_size as int));
    let b = block_size;
    if method != Compression::Off && source.len() > block_size {
        let (consumed, packed) = choose|consumed: int, packed: Seq<u8>|
            {
                &&& compression::is_answer(source, cluster_size as int, consumed, packed)
                &&& compression::answers(lz4, source, cluster_size, consumed, packed)
                &&& c == #[trigger] compression::cluster_of(source, consumed, packed, block_size)
            };
        compression::lemma_in_blocks(packed.len() as int, block_size);
        let whole = compression::in_blocks(packed.len() as int, block_size);
        vstd::arithmetic::div_mod::lemma_div_is_ordered(
            packed.len() + b - 1,
            cluster_size + b - 1,
            b,
        );
        vstd::arithmetic::mul::lemma_mul_inequality(
            (packed.len() + b - 1) / b,
            (cluster_size + b - 1) / b,
            b,
        );
        vstd::arithmetic::div_mod::lemma_mod_multiples_basic((packed.len() + b - 1) / b, b);
        crate::erofs::layout::lemma_rounded(cluster_size as int, b);
        assert(whole <= cluster_size);
        assert(whole % b == 0);
        assert(whole >= b) by {
            vstd::arithmetic::div_mod::lemma_fundamental_div_mod(whole, b);
            if whole < b {
                vstd::arithmetic::div_mod::lemma_small_mod(whole as nat, b as nat);
            }
        }
        if whole < 2 * b {
            assert(whole == b) by {
                vstd::arithmetic::div_mod::lemma_mod_sub_multiples_vanish(whole, b);
                if whole != b {
                    vstd::arithmetic::div_mod::lemma_small_mod((whole - b) as nat, b as nat);
                }
            }
        }
    } else {
        vstd::arithmetic::div_mod::lemma_mod_self_0(b);
    }
    vstd::arithmetic::div_mod::lemma_mod_self_0(b);
    vstd::arithmetic::div_mod::lemma_div_is_ordered(c.stored.len() as int, cluster_size as int, b);
}

/// What is stored of some clusters is whole blocks.
proof fn lemma_stored_whole<F: Fn(&[u8], usize) -> Option<(usize, Vec<u8>)>>(
    lz4: F,
    input: Seq<u8>,
    block_size: int,
    cluster_size: usize,
    method: Compression,
    clusters: Seq<Cluster>,
    n: int,
)
    requires
        compression::is_block_size(block_size),
        compression::is_cluster_size(cluster_size as int, block_size),
        compression::is_run(lz4, input, block_size, cluster_size, method, clusters),
        0 <= n <= clusters.len(),
    ensures
        compression::stored_by(clusters, n).len() as int % block_size == 0,
    decreases n,
{
    if n > 0 {
        lemma_stored_whole(lz4, input, block_size, cluster_size, method, clusters, n - 1);
        let at = compression::consumed_by(clusters, n - 1);
        let c = clusters[n - 1];
        assert(compression::follows(
            lz4,
            input,
            block_size,
            cluster_size,
            method,
            clusters,
            n - 1,
        ));
        reveal(compression::follows);
        lemma_stored_blocks(lz4, input, at, block_size, cluster_size, method, c);
        let before = compression::stored_by(clusters, n - 1).len() as int;
        vstd::arithmetic::div_mod::lemma_add_mod_noop(before, c.stored.len() as int, block_size);
        vstd::arithmetic::div_mod::lemma_small_mod(0, block_size as nat);
    } else {
        vstd::arithmetic::div_mod::lemma_small_mod(0, block_size as nat);
    }
}

/// Where the list puts cluster `j` in the file.
#[verifier::rlimit(50)]
#[verifier::spinoff_prover]
proof fn lemma_extent_bounds<F: Fn(&[u8], usize) -> Option<(usize, Vec<u8>)>>(
    lz4: F,
    input: Seq<u8>,
    start: int,
    block_size: int,
    cluster_size: usize,
    method: Compression,
    clusters: Seq<Cluster>,
    list: Seq<Index>,
    j: int,
)
    requires
        compression::is_block_size(block_size),
        compression::is_cluster_size(cluster_size as int, block_size),
        compression::is_run(lz4, input, block_size, cluster_size, method, clusters),
        list.len() == indexes::block_count(input.len() as int, block_size),
        0 <= j < clusters.len(),
        finds(list, clusters, start, block_size, cluster_size > block_size, j),
    ensures
        ({
            let size = input.len() as int;
            let at = compression::consumed_by(clusters, j);
            let first = at / block_size;
            let next = index_end(clusters, block_size, j);
            &&& next_start(list, first) == next
            &&& cluster_start(list, size, block_size, first) == at
            &&& cluster_start(list, size, block_size, next) == at + clusters[j].consumed
            &&& 0 <= at < size
            &&& at + clusters[j].consumed <= size
            &&& next < list.len() ==> next == (at + clusters[j].consumed) / block_size
            &&& first + 1 == next ==> clusters[j].consumed < 2 * block_size
        }),
{
    let b = block_size;
    let size = input.len() as int;
    let c = clusters[j];
    let at = compression::consumed_by(clusters, j);
    let end = compression::consumed_by(clusters, j + 1);
    let first = at / b;
    let next = index_end(clusters, b, j);
    assert(compression::follows(lz4, input, b, cluster_size, method, clusters, j));
    reveal(compression::follows);
    indexes::lemma_cluster_bounds(lz4, input, at, b, cluster_size, method, c);
    assert(end == at + c.consumed);
    lemma_next_start(list, first, next);
    vstd::arithmetic::div_mod::lemma_fundamental_div_mod(at, b);
    vstd::arithmetic::div_mod::lemma_fundamental_div_mod(end, b);
    vstd::arithmetic::div_mod::lemma_mod_bound(at, b);
    vstd::arithmetic::div_mod::lemma_mod_bound(end, b);
    vstd::arithmetic::mul::lemma_mul_is_commutative(first, b);
    vstd::arithmetic::mul::lemma_mul_is_commutative(end / b, b);
    let total = list.len() as int;
    vstd::arithmetic::div_mod::lemma_fundamental_div_mod(size + b - 1, b);
    vstd::arithmetic::div_mod::lemma_mod_bound(size + b - 1, b);
    assert(b * total >= size);
    if end / b == first {
        // The cluster ends in the block in which it starts, and so does the file.
        assert(c.consumed < b);
        assert(end == size);
        assert(total == first + 1) by (nonlinear_arith)
            requires
                b * total >= size,
                b * total < size + b,
                first < total,
                size < b * first + b,
                b > 0,
        ;
    } else if next == total {
        assert(end == size) by (nonlinear_arith)
            requires
                b * total >= size,
                b * (end / b) <= end,
                end / b == total,
                end <= size,
                b > 0,
        ;
    }
    if first + 1 == next {
        assert(c.consumed < 2 * b) by (nonlinear_arith)
            requires
                end == at + c.consumed,
                b * first <= at,
                end < b * (end / b) + b,
                end / b == first || end / b == first + 1,
                b > 0,
        ;
    }
}

/// The blocks that the list states for cluster `j` hold what is stored of it.
#[verifier::rlimit(50)]
#[verifier::spinoff_prover]
proof fn lemma_extent_data<F: Fn(&[u8], usize) -> Option<(usize, Vec<u8>)>>(
    lz4: F,
    input: Seq<u8>,
    start: int,
    block_size: int,
    cluster_size: usize,
    method: Compression,
    clusters: Seq<Cluster>,
    list: Seq<Index>,
    img: Seq<u8>,
    j: int,
)
    requires
        compression::is_block_size(block_size),
        compression::is_cluster_size(cluster_size as int, block_size),
        compression::is_run(lz4, input, block_size, cluster_size, method, clusters),
        list.len() == indexes::block_count(input.len() as int, block_size),
        0 <= j < clusters.len(),
        finds(list, clusters, start, block_size, cluster_size > block_size, j),
        start % block_size == 0,
        bytes::stands_at(
            img,
            start,
            compression::stored_by(clusters, clusters.len() as int),
        ),
    ensures
        ({
            let first = compression::consumed_by(clusters, j) / block_size;
            let from = list[first].block * block_size;
            let blocks = cluster_blocks(list, cluster_size > block_size, first);
            img.subrange(from, from + blocks * block_size) == clusters[j].stored
        }),
{
    let b = block_size;
    let c = clusters[j];
    let n = clusters.len() as int;
    let big = cluster_size > block_size;
    let at = compression::consumed_by(clusters, j);
    let first = at / b;
    let next = index_end(clusters, b, j);
    lemma_extent_bounds(lz4, input, start, b, cluster_size, method, clusters, list, j);
    assert(compression::follows(lz4, input, b, cluster_size, method, clusters, j));
    reveal(compression::follows);
    lemma_stored_blocks(lz4, input, at, b, cluster_size, method, c);
    lemma_stored_whole(lz4, input, b, cluster_size, method, clusters, j);
    let offset = compression::stored_by(clusters, j).len() as int;
    let length = c.stored.len() as int;
    vstd::arithmetic::div_mod::lemma_add_mod_noop(start, offset, b);
    vstd::arithmetic::div_mod::lemma_small_mod(0, b as nat);
    vstd::arithmetic::div_mod::lemma_fundamental_div_mod(start + offset, b);
    vstd::arithmetic::mul::lemma_mul_is_commutative((start + offset) / b, b);
    let from = list[first].block * b;
    assert(from == start + offset);
    vstd::arithmetic::div_mod::lemma_fundamental_div_mod(length, b);
    vstd::arithmetic::mul::lemma_mul_is_commutative(length / b, b);
    let blocks = cluster_blocks(list, big, first);
    assert(blocks * b == length) by {
        if first + 1 == next {
            assert(blocks == 1);
        } else if big {
            assert(!starts_cluster(list[first + 1]));
            assert(blocks == length / b);
        } else {
            assert(length == b);
        }
    }
    reading::lemma_stored_grows(clusters, j + 1, n);
    let all = compression::stored_by(clusters, n);
    let upto = compression::stored_by(clusters, j + 1);
    assert(upto == compression::stored_by(clusters, j) + c.stored);
    assert(all.subrange(offset, offset + length) =~= all.take(upto.len() as int).subrange(
        offset,
        offset + length,
    ));
    assert(upto.subrange(offset, offset + length) =~= c.stored);
    let part = img.subrange(start, start + all.len());
    assert(img.subrange(from, from + length) =~= part.subrange(offset, offset + length));
}

/// A file whose indexes find its clusters reads back from each cluster on.
#[verifier::rlimit(50)]
#[verifier::spinoff_prover]
proof fn lemma_extents_read_back<F: Fn(&[u8], usize) -> Option<(usize, Vec<u8>)>>(
    lz4: F,
    unpack: spec_fn(Seq<u8>) -> Seq<u8>,
    input: Seq<u8>,
    start: int,
    block_size: int,
    cluster_size: usize,
    method: Compression,
    clusters: Seq<Cluster>,
    list: Seq<Index>,
    img: Seq<u8>,
    j: int,
)
    requires
        compression::is_block_size(block_size),
        compression::is_cluster_size(cluster_size as int, block_size),
        compression::is_run(lz4, input, block_size, cluster_size, method, clusters),
        compression::consumed_by(clusters, clusters.len() as int) == input.len(),
        reading::undoes(unpack, lz4),
        list.len() == indexes::block_count(input.len() as int, block_size),
        0 <= j < clusters.len(),
        finds_all(list, clusters, start, block_size, cluster_size > block_size),
        start % block_size == 0,
        bytes::stands_at(
            img,
            start,
            compression::stored_by(clusters, clusters.len() as int),
        ),
    ensures
        read_extents(
            img,
            list,
            input.len() as int,
            block_size,
            cluster_size > block_size,
            unpack,
            compression::consumed_by(clusters, j) / block_size,
        ) == input.skip(compression::consumed_by(clusters, j)),
    decreases clusters.len() - j,
{
    let b = block_size;
    let n = clusters.len() as int;
    let size = input.len() as int;
    let big = cluster_size > block_size;
    let c = clusters[j];
    let at = compression::consumed_by(clusters, j);
    let end = compression::consumed_by(clusters, j + 1);
    let first = at / b;
    let next = index_end(clusters, b, j);
    assert(finds(list, clusters, start, b, big, j));
    lemma_extent_bounds(lz4, input, start, b, cluster_size, method, clusters, list, j);
    lemma_extent_data(lz4, input, start, b, cluster_size, method, clusters, list, img, j);
    assert(compression::follows(lz4, input, b, cluster_size, method, clusters, j));
    reveal(compression::follows);
    reading::lemma_cluster_reads_back(lz4, unpack, input, at, b, cluster_size, method, c);
    assert(read_extent(img, list, size, b, big, unpack, first) == reading::read_cluster(c, unpack));
    let rest = read_extents(img, list, size, b, big, unpack, next);
    assert(rest == input.skip(end)) by {
        if next < list.len() && j + 1 < n {
            lemma_extents_read_back(
                lz4,
                unpack,
                input,
                start,
                b,
                cluster_size,
                method,
                clusters,
                list,
                img,
                j + 1,
            );
        } else {
            assert(end == size);
            assert(input.skip(size) =~= Seq::<u8>::empty());
        }
    }
    assert(input.subrange(at, end) + input.skip(end) =~= input.skip(at));
}

// ---------------------------------------------------------------------------
// Full indexes
// ---------------------------------------------------------------------------

/// Index `i` of full indexes.
pub open spec fn full_index(metadata: Seq<u8>, i: int) -> Index {
    let at = 16 + 8 * i;
    let kind = bytes::le16(metadata, at) % 4;
    Index {
        kind,
        low: if kind == Z_EROFS_LCLUSTER_TYPE_NONHEAD {
            bytes::le16(metadata, at + 4)
        } else {
            bytes::le16(metadata, at + 2)
        },
        block: bytes::le32(metadata, at + 4),
    }
}

/// The first `total` of full indexes.
pub open spec fn full_indexes(metadata: Seq<u8>, total: int) -> Seq<Index> {
    Seq::new(total as nat, |i: int| full_index(metadata, i))
}

proof fn lemma_inner_record(
    kind: int,
    offset: int,
    block: int,
    forward: int,
    blocks: int,
    big: bool,
    count: int,
    k: int,
)
    requires
        0 < k < count,
    ensures
        bytes::stands_at(
            compression::cluster_records(kind, offset, block, forward, blocks, big, count),
            8 * k,
            compression::inner_record(offset, k, forward - k, blocks, big),
        ),
    decreases count,
{
    let all = compression::cluster_records(kind, offset, block, forward, blocks, big, count);
    let before = compression::cluster_records(
        kind,
        offset,
        block,
        forward,
        blocks,
        big,
        count - 1,
    );
    indexes::lemma_cluster_records(kind, offset, block, forward, blocks, big, count - 1);
    if k == count - 1 {
        assert(all.subrange(8 * k, 8 * k + 8) =~= compression::inner_record(
            offset,
            k,
            forward - k,
            blocks,
            big,
        ));
    } else {
        lemma_inner_record(kind, offset, block, forward, blocks, big, count - 1, k);
        assert(all.subrange(8 * k, 8 * k + 8) =~= before.subrange(8 * k, 8 * k + 8));
    }
}

/// What stands at the start of a sequence stands in the sequence.
proof fn lemma_stands_in_start(s: Seq<u8>, start: Seq<u8>, at: int, part: Seq<u8>)
    requires
        start.len() <= s.len(),
        s.take(start.len() as int) == start,
        bytes::stands_at(start, at, part),
    ensures
        bytes::stands_at(s, at, part),
{
    assert(s.subrange(at, at + part.len()) =~= s.take(start.len() as int).subrange(
        at,
        at + part.len(),
    ));
}

/// The indexes of cluster `j` and where they stand: that of the block in which
/// it starts, and those of the blocks up to the one in which it ends.
#[verifier::rlimit(50)]
#[verifier::spinoff_prover]
proof fn lemma_records_stand<F: Fn(&[u8], usize) -> Option<(usize, Vec<u8>)>>(
    lz4: F,
    input: Seq<u8>,
    start: int,
    block_size: int,
    cluster_size: usize,
    method: Compression,
    clusters: Seq<Cluster>,
    j: int,
    k: int,
)
    requires
        compression::is_block_size(block_size),
        compression::is_cluster_size(cluster_size as int, block_size),
        compression::is_run(lz4, input, block_size, cluster_size, method, clusters),
        compression::consumed_by(clusters, clusters.len() as int) == input.len(),
        0 <= j < clusters.len(),
        0 <= k,
        compression::consumed_by(clusters, j) / block_size + k < index_end(
            clusters,
            block_size,
            j,
        ),
    ensures
        ({
            let big = cluster_size > block_size;
            let first = compression::consumed_by(clusters, j) / block_size;
            let offset = compression::consumed_by(clusters, j) % block_size;
            let forward = compression::consumed_by(clusters, j + 1) / block_size - first;
            let metadata = compression::ended(
                compression::indexes_of(clusters, start, block_size, big, clusters.len() as int),
            );
            &&& 0 <= first
            &&& 0 <= forward
            &&& 0 <= offset < block_size
            &&& bytes::stands_at(
                metadata,
                16 + 8 * (first + k),
                if k == 0 {
                    reading::head_record(clusters, start, block_size, j)
                } else {
                    compression::inner_record(
                        offset,
                        k,
                        forward - k,
                        clusters[j].stored.len() as int / block_size,
                        big,
                    )
                },
            )
        }),
{
    let b = block_size;
    let n = clusters.len() as int;
    let big = cluster_size > block_size;
    let at = compression::consumed_by(clusters, j);
    let c = clusters[j];
    let before = compression::indexes_of(clusters, start, b, big, j);
    let next = compression::indexes_of(clusters, start, b, big, j + 1);
    let all = compression::indexes_of(clusters, start, b, big, n);
    let metadata = compression::ended(all);
    indexes::lemma_index_count(lz4, input, start, b, cluster_size, method, clusters, j);
    assert(compression::follows(lz4, input, b, cluster_size, method, clusters, j));
    reveal(compression::follows);
    indexes::lemma_cluster_bounds(lz4, input, at, b, cluster_size, method, c);
    let first = (before.bytes.len() - 16) / 8;
    vstd::arithmetic::div_mod::lemma_fundamental_div_mod_converse(at, b, first, before.offset);
    let place = before.bytes.len() as int;
    assert(place == 16 + 8 * first);
    let end = before.offset + c.consumed;
    let forward = end / b;
    vstd::arithmetic::div_mod::lemma_hoist_over_denominator(end, first, b as nat);
    assert(compression::consumed_by(clusters, j + 1) == end + first * b);
    assert(forward >= 0) by {
        vstd::arithmetic::div_mod::lemma_div_pos_is_pos(end, b);
    }
    let block = (start + compression::stored_by(clusters, j).len()) / b;
    let kind = if c.raw {
        Z_EROFS_LCLUSTER_TYPE_PLAIN as int
    } else {
        Z_EROFS_LCLUSTER_TYPE_HEAD1 as int
    };
    let blocks = c.stored.len() as int / b;
    let record = if k == 0 {
        reading::head_record(clusters, start, b, j)
    } else {
        compression::inner_record(before.offset, k, forward - k, blocks, big)
    };
    assert(record.len() == 8);
    assert(bytes::stands_at(next.bytes, place + 8 * k, record)) by {
        if forward > 0 {
            let records = compression::cluster_records(
                kind,
                before.offset,
                block,
                forward,
                blocks,
                big,
                forward,
            );
            assert(next.bytes == before.bytes + records);
            indexes::lemma_cluster_records(
                kind,
                before.offset,
                block,
                forward,
                blocks,
                big,
                forward,
            );
            if k == 0 {
                reading::lemma_first_record(
                    kind,
                    before.offset,
                    block,
                    forward,
                    blocks,
                    big,
                    forward,
                );
                assert(records.subrange(0, 8) =~= records.take(8));
            } else {
                lemma_inner_record(
                    kind,
                    before.offset,
                    block,
                    forward,
                    blocks,
                    big,
                    forward,
                    k,
                );
            }
            assert(next.bytes.subrange(place + 8 * k, place + 8 * k + 8) =~= records.subrange(
                8 * k,
                8 * k + 8,
            ));
        } else {
            assert(next.bytes.subrange(place, place + 8) =~= record);
        }
    }
    reading::lemma_indexes_grow(clusters, start, b, big, j + 1, n);
    lemma_stands_in_start(all.bytes, next.bytes, place + 8 * k, record);
    assert(metadata.take(all.bytes.len() as int) =~= all.bytes);
    lemma_stands_in_start(metadata, all.bytes, place + 8 * k, record);
}

/// Reads the index that stands at a place.
proof fn lemma_read_head(metadata: Seq<u8>, i: int, kind: int, offset: int, block: int)
    requires
        bytes::stands_at(
            metadata,
            16 + 8 * i,
            compression::index_record(kind, offset, bytes::bytes32(block)),
        ),
        kind == 0 || kind == 1,
        0 <= offset < 0x1_0000,
        0 <= block <= 0xffff_ffff,
    ensures
        full_index(metadata, i) == (Index { kind, low: offset, block }),
{
    let at = 16 + 8 * i;
    let r = compression::index_record(kind, offset, bytes::bytes32(block));
    let part = metadata.subrange(at, at + 8);
    assert(r.len() == 8);
    assert forall|k: int| 0 <= k < 8 implies metadata[at + k] == #[trigger] r[k] by {
        assert(part[k] == metadata[at + k]);
    }
    bytes::lemma_bytes16(kind);
    bytes::lemma_bytes16(offset);
    bytes::lemma_bytes32(block);
    assert(r[0] == bytes::bytes16(kind)[0] && r[1] == bytes::bytes16(kind)[1]);
    assert(r[2] == bytes::bytes16(offset)[0] && r[3] == bytes::bytes16(offset)[1]);
    let v = bytes::bytes32(block);
    assert(r[4] == v[0] && r[5] == v[1] && r[6] == v[2] && r[7] == v[3]);
    assert(metadata[at + 0] == r[0]);
    assert(bytes::le16(metadata, at) == kind);
    assert(bytes::le16(metadata, at + 2) == offset);
    assert(bytes::le32(metadata, at + 4) == block);
}

proof fn lemma_read_inner(
    metadata: Seq<u8>,
    i: int,
    offset: int,
    back: int,
    forward: int,
    blocks: int,
    big: bool,
)
    requires
        bytes::stands_at(
            metadata,
            16 + 8 * i,
            compression::inner_record(offset, back, forward, blocks, big),
        ),
        0 < back,
        0 <= blocks < 0x800,
    ensures
        full_index(metadata, i).kind == Z_EROFS_LCLUSTER_TYPE_NONHEAD,
        back == 1 && big ==> full_index(metadata, i).low == 0x800 + blocks,
        !(back == 1 && big) ==> full_index(metadata, i).low < 0x800,
{
    let at = 16 + 8 * i;
    let r = compression::inner_record(offset, back, forward, blocks, big);
    let delta = if back == 1 && big {
        blocks + 0x800
    } else if back < 0x7ff {
        back
    } else {
        0x7ff
    };
    let part = metadata.subrange(at, at + 8);
    assert(r.len() == 8);
    assert forall|k: int| 0 <= k < 8 implies metadata[at + k] == #[trigger] r[k] by {
        assert(part[k] == metadata[at + k]);
    }
    bytes::lemma_bytes16(2);
    bytes::lemma_bytes16(delta);
    assert(r[0] == bytes::bytes16(2)[0] && r[1] == bytes::bytes16(2)[1]);
    assert(r[4] == bytes::bytes16(delta)[0] && r[5] == bytes::bytes16(delta)[1]);
    assert(metadata[at + 0] == r[0]);
    assert(bytes::le16(metadata, at) == 2);
    assert(bytes::le16(metadata, at + 4) == delta);
}

/// Full indexes find every cluster.
#[verifier::rlimit(50)]
#[verifier::spinoff_prover]
proof fn lemma_full_finds<F: Fn(&[u8], usize) -> Option<(usize, Vec<u8>)>>(
    lz4: F,
    input: Seq<u8>,
    start: int,
    block_size: int,
    cluster_size: usize,
    method: Compression,
    clusters: Seq<Cluster>,
    j: int,
)
    requires
        compression::is_block_size(block_size),
        compression::is_cluster_size(cluster_size as int, block_size),
        compression::is_run(lz4, input, block_size, cluster_size, method, clusters),
        compression::consumed_by(clusters, clusters.len() as int) == input.len(),
        0 <= start,
        (start + compression::stored_by(clusters, clusters.len() as int).len()) / block_size
            <= 0xffff_ffff,
        0 <= j < clusters.len(),
    ensures
        ({
            let big = cluster_size > block_size;
            let metadata = compression::ended(
                compression::indexes_of(clusters, start, block_size, big, clusters.len() as int),
            );
            let total = indexes::block_count(input.len() as int, block_size);
            finds(full_indexes(metadata, total), clusters, start, block_size, big, j)
        }),
{
    let b = block_size;
    let n = clusters.len() as int;
    let size = input.len() as int;
    let big = cluster_size > block_size;
    let state = compression::indexes_of(clusters, start, b, big, n);
    let metadata = compression::ended(state);
    let total = indexes::block_count(size, b);
    let list = full_indexes(metadata, total);
    let c = clusters[j];
    let at = compression::consumed_by(clusters, j);
    let end = compression::consumed_by(clusters, j + 1);
    let first = at / b;
    let next = index_end(clusters, b, j);
    indexes::lemma_ended_count(lz4, input, start, b, cluster_size, method, clusters);
    assert(compression::follows(lz4, input, b, cluster_size, method, clusters, j));
    reveal(compression::follows);
    indexes::lemma_cluster_bounds(lz4, input, at, b, cluster_size, method, c);
    lemma_stored_blocks(lz4, input, at, b, cluster_size, method, c);
    lemma_index_end(at, end, size, b);
    assert(0 <= first < next <= total);
    lemma_head_found(lz4, input, start, b, cluster_size, method, clusters, j);
    let forward = end / b - first;
    assert forall|k: int| first < k < next implies !starts_cluster(#[trigger] list[k]) && (k
        == first + 1 && big ==> list[k].low == 0x800 + c.stored.len() as int / b) by {
        lemma_records_stand(
            lz4,
            input,
            start,
            b,
            cluster_size,
            method,
            clusters,
            j,
            k - first,
        );
        vstd::arithmetic::div_mod::lemma_div_pos_is_pos(c.stored.len() as int, b);
        lemma_read_inner(
            metadata,
            k,
            at % b,
            k - first,
            forward - (k - first),
            c.stored.len() as int / b,
            big,
        );
    }
    if next < total {
        if j + 1 < n {
            assert(compression::follows(lz4, input, b, cluster_size, method, clusters, j + 1));
            assert(end < size);
            assert(end / b != first) by {
                if end / b == first {
                    vstd::arithmetic::div_mod::lemma_fundamental_div_mod(at, b);
                    vstd::arithmetic::div_mod::lemma_fundamental_div_mod(end, b);
                    vstd::arithmetic::div_mod::lemma_mod_bound(at, b);
                    vstd::arithmetic::div_mod::lemma_mod_bound(end, b);
                }
            }
            lemma_head_found(lz4, input, start, b, cluster_size, method, clusters, j + 1);
        } else {
            assert(end == size);
            let before = compression::indexes_of(clusters, start, b, big, j);
            indexes::lemma_index_count(lz4, input, start, b, cluster_size, method, clusters, j);
            let k = (before.bytes.len() - 16) / 8;
            vstd::arithmetic::div_mod::lemma_fundamental_div_mod_converse(at, b, k, before.offset);
            vstd::arithmetic::div_mod::lemma_hoist_over_denominator(
                before.offset + c.consumed,
                k,
                b as nat,
            );
            vstd::arithmetic::div_mod::lemma_mod_multiples_vanish(
                k,
                before.offset + c.consumed,
                b,
            );
            vstd::arithmetic::mul::lemma_mul_is_commutative(k, b);
            lemma_marker(state, size, b, total, next);
            let r = compression::index_record(0, state.offset, bytes::bytes32(0));
            assert(r.len() == 8);
            assert(metadata.subrange(16 + 8 * next, 16 + 8 * next + 8) =~= r);
            lemma_read_head(metadata, next, 0, state.offset, 0);
        }
    }
}

/// Where the indexes of a cluster end.
proof fn lemma_index_end(at: int, end: int, size: int, b: int)
    requires
        0 <= at < end <= size,
        b > 0,
        end - at >= b || end == size,
    ensures
        0 <= at / b <= end / b,
        at / b < indexes::block_count(size, b),
        end / b <= indexes::block_count(size, b),
{
    let total = indexes::block_count(size, b);
    vstd::arithmetic::div_mod::lemma_div_pos_is_pos(at, b);
    vstd::arithmetic::div_mod::lemma_div_is_ordered(at, end, b);
    vstd::arithmetic::div_mod::lemma_div_is_ordered(end, size + b - 1, b);
    vstd::arithmetic::div_mod::lemma_div_is_ordered(at + b, size + b - 1, b);
    vstd::arithmetic::div_mod::lemma_div_plus_one(at, b);
}

/// An index behind those of the clusters marks the end of the file.
proof fn lemma_marker(
    state: compression::IndexState,
    size: int,
    b: int,
    total: int,
    next: int,
)
    requires
        b > 0,
        size > 0,
        total == indexes::block_count(size, b),
        size / b <= next < total,
        compression::ended(state).len() == 16 + 8 * total,
        state.offset != 0 ==> state.offset == size % b && state.bytes.len() == 16 + 8 * (size / b),
        next == size / b || next == size / b + 1,
        state.offset == 0 ==> next != size / b || size % b == 0,
    ensures
        state.offset != 0,
        next == size / b,
        state.offset == size % b,
        0 < state.offset < b,
        state.bytes.len() == 16 + 8 * next,
{
    vstd::arithmetic::div_mod::lemma_fundamental_div_mod(size, b);
    vstd::arithmetic::div_mod::lemma_mod_bound(size, b);
    vstd::arithmetic::div_mod::lemma_fundamental_div_mod(size + b - 1, b);
    vstd::arithmetic::div_mod::lemma_mod_bound(size + b - 1, b);
    assert(total <= size / b + 1) by (nonlinear_arith)
        requires
            b * total <= size + b - 1,
            size < b * (size / b) + b,
            b > 0,
    ;
    assert(size % b == 0 ==> total == size / b) by (nonlinear_arith)
        requires
            b * total <= size + b - 1,
            b * total >= size,
            size == b * (size / b) + size % b,
            b > 0,
    ;
}

/// The index of the block in which a cluster starts.
#[verifier::rlimit(50)]
#[verifier::spinoff_prover]
proof fn lemma_head_found<F: Fn(&[u8], usize) -> Option<(usize, Vec<u8>)>>(
    lz4: F,
    input: Seq<u8>,
    start: int,
    block_size: int,
    cluster_size: usize,
    method: Compression,
    clusters: Seq<Cluster>,
    j: int,
)
    requires
        compression::is_block_size(block_size),
        compression::is_cluster_size(cluster_size as int, block_size),
        compression::is_run(lz4, input, block_size, cluster_size, method, clusters),
        compression::consumed_by(clusters, clusters.len() as int) == input.len(),
        0 <= start,
        (start + compression::stored_by(clusters, clusters.len() as int).len()) / block_size
            <= 0xffff_ffff,
        0 <= j < clusters.len(),
    ensures
        ({
            let big = cluster_size > block_size;
            let metadata = compression::ended(
                compression::indexes_of(clusters, start, block_size, big, clusters.len() as int),
            );
            let at = compression::consumed_by(clusters, j);
            full_index(metadata, at / block_size) == Index {
                kind: if clusters[j].raw {
                    Z_EROFS_LCLUSTER_TYPE_PLAIN as int
                } else {
                    Z_EROFS_LCLUSTER_TYPE_HEAD1 as int
                },
                low: at % block_size,
                block: (start + compression::stored_by(clusters, j).len()) / block_size,
            }
        }),
{
    let b = block_size;
    let n = clusters.len() as int;
    let big = cluster_size > block_size;
    let metadata = compression::ended(compression::indexes_of(clusters, start, b, big, n));
    let at = compression::consumed_by(clusters, j);
    let end = compression::consumed_by(clusters, j + 1);
    assert(compression::follows(lz4, input, b, cluster_size, method, clusters, j));
    reveal(compression::follows);
    indexes::lemma_cluster_bounds(lz4, input, at, b, cluster_size, method, clusters[j]);
    lemma_index_end(at, end, input.len() as int, b);
    lemma_records_stand(lz4, input, start, b, cluster_size, method, clusters, j, 0);
    let offset = compression::stored_by(clusters, j).len() as int;
    reading::lemma_stored_grows(clusters, j, n);
    vstd::arithmetic::div_mod::lemma_div_is_ordered(
        start + offset,
        start + compression::stored_by(clusters, n).len(),
        b,
    );
    vstd::arithmetic::div_mod::lemma_div_pos_is_pos(start + offset, b);
    lemma_read_head(
        metadata,
        at / b,
        if clusters[j].raw {
            0
        } else {
            1
        },
        at % b,
        (start + offset) / b,
    );
}

// ---------------------------------------------------------------------------
// Compact indexes
// ---------------------------------------------------------------------------

/// The 56-bit little-endian integer that starts at `at`.
pub open spec fn le56(s: Seq<u8>, at: int) -> int {
    bytes::le32(s, at) + 0x1_0000_0000 * bytes::le16(s, at + 4) + 0x1_0000_0000_0000 * s[at + 6]
}

/// Value `k` of the pack at `at`: of 14 bits in a pack of sixteen, where seven
/// bytes hold four of them, and of 16 bits in a pack of two.
#[verifier::opaque]
pub open spec fn slot_value(metadata: Seq<u8>, at: int, count: int, k: int) -> int {
    if count == 16 {
        let four = le56(metadata, at + 7 * (k / 4));
        if k % 4 == 0 {
            four % 0x4000
        } else if k % 4 == 1 {
            four / 0x4000 % 0x4000
        } else if k % 4 == 2 {
            four / 0x1000_0000 % 0x4000
        } else {
            four / 0x400_0000_0000 % 0x4000
        }
    } else {
        bytes::le16(metadata, at + 2 * k)
    }
}

/// The block that the pack at `at` states.
pub open spec fn pack_base(metadata: Seq<u8>, at: int, count: int) -> int {
    bytes::le32(metadata, at + indexes::pack_size(count) - 4)
}

/// What one more slot says of the block of the last cluster that started, and
/// of whether the next one lies in the block after it. A slot may state how
/// many blocks further on it lies.
pub open spec fn pack_step(state: (int, bool), value: int) -> (int, bool) {
    let (block, pending) = state;
    if value / 0x1000 != Z_EROFS_LCLUSTER_TYPE_NONHEAD {
        (
            if pending {
                (block + 1) % 0x1_0000_0000
            } else {
                block
            },
            true,
        )
    } else if value % 0x1000 >= 0x800 {
        ((block + value % 0x1000 - 0x800) % 0x1_0000_0000, false)
    } else {
        (block, pending)
    }
}

/// What the first `n` slots of a pack say of it.
pub open spec fn pack_state(metadata: Seq<u8>, at: int, count: int, big: bool, n: int) -> (int, bool)
    decreases n,
{
    if n <= 0 {
        (pack_base(metadata, at, count), !big)
    } else {
        pack_step(
            pack_state(metadata, at, count, big, n - 1),
            slot_value(metadata, at, count, n - 1),
        )
    }
}

/// Index `k` of the pack at `at`.
pub open spec fn pack_index(metadata: Seq<u8>, at: int, count: int, big: bool, k: int) -> Index {
    let value = slot_value(metadata, at, count, k);
    Index {
        kind: value / 0x1000,
        low: value % 0x1000,
        block: pack_state(metadata, at, count, big, k + 1).0,
    }
}

/// Index `i` of compact indexes, of which the pack of index `index` stands at
/// `at`.
pub open spec fn compact_index(
    metadata: Seq<u8>,
    total: int,
    header_size: int,
    big: bool,
    index: int,
    at: int,
    i: int,
) -> Index
    decreases
            if index < total {
                total - index
            } else {
                0
            },
{
    let count = indexes::pack_count(total, header_size, index);
    if index >= total || i < index + count {
        pack_index(metadata, at, count, big, i - index)
    } else {
        proof {
            indexes::lemma_pack_count(total, header_size, index);
        }
        compact_index(
            metadata,
            total,
            header_size,
            big,
            index + count,
            at + indexes::pack_size(count),
            i,
        )
    }
}

/// The indexes of a file in compact form.
pub open spec fn compact_indexes(
    metadata: Seq<u8>,
    total: int,
    header_size: int,
    big: bool,
) -> Seq<Index> {
    Seq::new(total as nat, |i: int| compact_index(metadata, total, header_size, big, 0, 8, i))
}

/// Numbers of 14 bits, one above the other, part again.
#[verifier::rlimit(50)]
#[verifier::spinoff_prover]
proof fn lemma_four_parts(a: int, b: int, c: int, d: int)
    requires
        0 <= a < 0x4000,
        0 <= b < 0x4000,
        0 <= c < 0x4000,
        0 <= d < 0x4000,
    ensures
        ({
            let v = a + 0x4000 * b + 0x1000_0000 * c + 0x400_0000_0000 * d;
            &&& 0 <= v < 0x100_0000_0000_0000
            &&& v % 0x4000 == a
            &&& v / 0x4000 % 0x4000 == b
            &&& v / 0x1000_0000 % 0x4000 == c
            &&& v / 0x400_0000_0000 % 0x4000 == d
        }),
{
    let v = a + 0x4000 * b + 0x1000_0000 * c + 0x400_0000_0000 * d;
    assert(v / 0x4000 == b + 0x4000 * c + 0x1000_0000 * d);
    assert(v / 0x1000_0000 == c + 0x4000 * d);
    assert(v / 0x400_0000_0000 == d);
}

/// The first seven bytes of a number of 56 bits give the number back.
#[verifier::rlimit(50)]
#[verifier::spinoff_prover]
proof fn lemma_le56(v: int)
    requires
        0 <= v < 0x100_0000_0000_0000,
    ensures
        le56(bytes::bytes64(v).take(7), 0) == v,
{
    let all = bytes::bytes64(v);
    let s = all.take(7);
    bytes::lemma_bytes64(v);
    let high = v / 0x1_0000_0000;
    assert(high < 0x100_0000);
    assert(all[7] == bytes::bytes32(high)[3]);
    assert(bytes::bytes32(high)[3] == bytes::bytes16(high / 0x1_0000)[1]);
    assert(high / 0x1_0000 < 0x100);
    assert(all[7] == 0);
    assert(bytes::le32(all, 0) == bytes::le32(s, 0));
    assert(bytes::le32(all, 4) == bytes::le16(s, 4) + 0x1_0000 * s[6]);
    assert(bytes::le64(all, 0) == bytes::le32(all, 0) + 0x1_0000_0000 * bytes::le32(all, 4));
}

/// Seven bytes give their four values back.
#[verifier::rlimit(50)]
#[verifier::spinoff_prover]
proof fn lemma_seven_bytes(a: int, b: int, c: int, d: int)
    requires
        0 <= a < 0x4000,
        0 <= b < 0x4000,
        0 <= c < 0x4000,
        0 <= d < 0x4000,
    ensures
        indexes::seven_bytes(a, b, c, d).len() == 7,
        ({
            let four = le56(indexes::seven_bytes(a, b, c, d), 0);
            &&& four % 0x4000 == a
            &&& four / 0x4000 % 0x4000 == b
            &&& four / 0x1000_0000 % 0x4000 == c
            &&& four / 0x400_0000_0000 % 0x4000 == d
        }),
{
    reveal(indexes::seven_bytes);
    let v = a + 0x4000 * b + 0x1000_0000 * c + 0x400_0000_0000 * d;
    lemma_four_parts(a, b, c, d);
    assert(a % 0x4000 == a && b % 0x4000 == b && c % 0x4000 == c && d % 0x4000 == d);
    assert(indexes::seven_bytes(a, b, c, d) == bytes::bytes64(v).take(7));
    lemma_le56(v);
}

/// Values that stand at a place read back from there.
proof fn lemma_four_values(metadata: Seq<u8>, at: int, a: int, b: int, c: int, d: int)
    requires
        0 <= a < 0x4000,
        0 <= b < 0x4000,
        0 <= c < 0x4000,
        0 <= d < 0x4000,
        bytes::stands_at(metadata, at, indexes::seven_bytes(a, b, c, d)),
    ensures
        ({
            let four = le56(metadata, at);
            &&& four % 0x4000 == a
            &&& four / 0x4000 % 0x4000 == b
            &&& four / 0x1000_0000 % 0x4000 == c
            &&& four / 0x400_0000_0000 % 0x4000 == d
        }),
{
    lemma_seven_bytes(a, b, c, d);
    let s = indexes::seven_bytes(a, b, c, d);
    let part = metadata.subrange(at, at + 7);
    assert forall|k: int| 0 <= k < 7 implies metadata[at + k] == #[trigger] s[k] by {
        assert(part[k] == metadata[at + k]);
    }
    assert(metadata[at + 0] == s[0]);
    assert(le56(metadata, at) == le56(s, 0));
}

/// The values of a pack, and the block that it states, read back.
#[verifier::rlimit(50)]
#[verifier::spinoff_prover]
proof fn lemma_pack_values(metadata: Seq<u8>, at: int, values: Seq<int>, base: int)
    requires
        values.len() == 2 || values.len() == 16,
        forall|k: int| 0 <= k < values.len() ==> 0 <= #[trigger] values[k] < 0x4000,
        0 <= base <= 0xffff_ffff,
        bytes::stands_at(metadata, at, indexes::pack_bytes(values, base)),
    ensures
        forall|k: int|
            0 <= k < values.len() ==> #[trigger] slot_value(
                metadata,
                at,
                values.len() as int,
                k,
            ) == values[k],
        pack_base(metadata, at, values.len() as int) == base,
{
    reveal(slot_value);
    let pack = indexes::pack_bytes(values, base);
    indexes::lemma_pack_bytes(values, base);
    bytes::lemma_bytes32(base);
    let size = indexes::pack_size(values.len() as int);
    let tail = bytes::bytes32(base);
    let part = metadata.subrange(at, at + size);
    assert(part == pack);
    if values.len() == 16 {
        lemma_seven_bytes(values[0], values[1], values[2], values[3]);
        lemma_seven_bytes(values[4], values[5], values[6], values[7]);
        lemma_seven_bytes(values[8], values[9], values[10], values[11]);
        lemma_seven_bytes(values[12], values[13], values[14], values[15]);
        assert forall|g: int| 0 <= g < 4 implies bytes::stands_at(
            metadata,
            #[trigger] (at + 7 * g),
            indexes::seven_bytes(
                values[4 * g],
                values[4 * g + 1],
                values[4 * g + 2],
                values[4 * g + 3],
            ),
        ) by {
            let four = indexes::seven_bytes(
                values[4 * g],
                values[4 * g + 1],
                values[4 * g + 2],
                values[4 * g + 3],
            );
            assert(pack.subrange(7 * g, 7 * g + 7) =~= four);
            assert(metadata.subrange(at + 7 * g, at + 7 * g + 7) =~= part.subrange(
                7 * g,
                7 * g + 7,
            ));
        }
        assert forall|k: int| 0 <= k < 16 implies #[trigger] slot_value(metadata, at, 16, k)
            == values[k] by {
            let g = k / 4;
            assert(bytes::stands_at(
                metadata,
                at + 7 * g,
                indexes::seven_bytes(
                    values[4 * g],
                    values[4 * g + 1],
                    values[4 * g + 2],
                    values[4 * g + 3],
                ),
            ));
            lemma_four_values(
                metadata,
                at + 7 * g,
                values[4 * g],
                values[4 * g + 1],
                values[4 * g + 2],
                values[4 * g + 3],
            );
        }
        assert(pack.subrange(28, 32) =~= tail);
    } else {
        bytes::lemma_bytes16(values[0]);
        bytes::lemma_bytes16(values[1]);
        let first = bytes::bytes16(values[0]);
        let second = bytes::bytes16(values[1]);
        assert(pack[0] == first[0] && pack[1] == first[1]);
        assert(pack[2] == second[0] && pack[3] == second[1]);
        assert(part[0] == metadata[at] && part[1] == metadata[at + 1]);
        assert(part[2] == metadata[at + 2] && part[3] == metadata[at + 3]);
        assert(slot_value(metadata, at, 2, 0) == values[0]);
        assert(slot_value(metadata, at, 2, 1) == values[1]);
        assert(pack.subrange(4, 8) =~= tail);
    }
    let from = size - 4;
    assert forall|k: int| 0 <= k < 4 implies metadata[at + from + k] == #[trigger] tail[k] by {
        assert(pack.subrange(from, from + 4)[k] == pack[from + k]);
        assert(part[from + k] == metadata[at + (from + k)]);
    }
    assert(metadata[at + from + 0] == tail[0]);
}

/// True when an index says what a full record says. Only of the last one may
/// the block differ, where the record states none.
pub open spec fn is_same(x: Index, r: Seq<u8>, last: bool) -> bool {
    &&& x.kind == bytes::le16(r, 0)
    &&& x.kind != Z_EROFS_LCLUSTER_TYPE_NONHEAD ==> x.low == bytes::le16(r, 2) && (x.block
        == bytes::le32(r, 4) || (bytes::le32(r, 4) == 0 && last))
    &&& x.kind == Z_EROFS_LCLUSTER_TYPE_NONHEAD ==> if bytes::le16(r, 4) >= 0x800 {
        x.low == bytes::le16(r, 4)
    } else {
        x.low < 0x800
    }
}

/// True when full records are of the known kinds, and state a number of blocks
/// only where clusters may have more than one.
pub open spec fn are_known(indexes: Seq<u8>, big: bool) -> bool {
    forall|i: int|
        0 <= i ==> is_known(#[trigger] indexes::record(indexes, i), big)
}

pub open spec fn is_known(r: Seq<u8>, big: bool) -> bool {
    &&& bytes::le16(r, 0) <= Z_EROFS_LCLUSTER_TYPE_NONHEAD
    &&& bytes::le16(r, 0) == Z_EROFS_LCLUSTER_TYPE_NONHEAD ==> bytes::le16(r, 4) < if big {
        0x1000int
    } else {
        0x800
    }
}

/// True when nothing can change any more which block a pack states.
spec fn is_settled(s: indexes::SlotState) -> bool {
    s.open_base ==> !s.pending
}

/// The state before the first slot of a pack.
spec fn pack_start(block: int, pending: bool, big: bool) -> indexes::SlotState {
    indexes::SlotState { block, pending, base: block, open_base: big, values: seq![], unit: 0x1000 }
}

/// What is known after the first `n` slots.
proof fn lemma_slot_facts(
    indexes: Seq<u8>,
    total: int,
    index: int,
    count: int,
    block: int,
    pending: bool,
    big: bool,
    n: int,
)
    requires
        0 <= n,
        0 <= index,
        0 <= block <= 0xffff_ffff,
        !big ==> pending,
        are_known(indexes, big),
        indexes::slots(indexes, total, index, count, pack_start(block, pending, big), n) is Ok,
    ensures
        ({
            let s = indexes::slots(
                indexes,
                total,
                index,
                count,
                pack_start(block, pending, big),
                n,
            )->Ok_0;
            &&& 0 <= s.block <= 0xffff_ffff
            &&& 0 <= s.base <= 0xffff_ffff
            &&& s.values.len() == n
            &&& forall|k: int| 0 <= k < n ==> 0 <= #[trigger] s.values[k] < 0x4000
            &&& !big ==> s.pending && !s.open_base && s.base == block
            &&& s.unit == 0x1000
        }),
    decreases n,
{
    if n > 0 {
        lemma_slot_facts(indexes, total, index, count, block, pending, big, n - 1);
        let r = indexes::record(indexes, index + n - 1);
        assert(is_known(r, big));
        assert(0 <= bytes::le16(r, 0) && 0 <= bytes::le16(r, 2) && 0 <= bytes::le16(r, 4));
        assert(0 <= bytes::le16(r, 6));
    }
}

/// The first slots of a pack are as they were when it was full, and the block
/// that it states stays once it is settled.
proof fn lemma_slots_settle(
    indexes: Seq<u8>,
    total: int,
    index: int,
    count: int,
    start: indexes::SlotState,
    n: int,
    m: int,
)
    requires
        0 <= n <= m,
        indexes::slots(indexes, total, index, count, start, m) is Ok,
    ensures
        indexes::slots(indexes, total, index, count, start, n) is Ok,
        ({
            let a = indexes::slots(indexes, total, index, count, start, n)->Ok_0;
            let b = indexes::slots(indexes, total, index, count, start, m)->Ok_0;
            &&& a.values.len() <= b.values.len()
            &&& b.values.take(a.values.len() as int) == a.values
            &&& is_settled(a) ==> is_settled(b) && b.base == a.base
        }),
    decreases m,
{
    let b = indexes::slots(indexes, total, index, count, start, m)->Ok_0;
    if n < m {
        lemma_slots_settle(indexes, total, index, count, start, n, m - 1);
        let a = indexes::slots(indexes, total, index, count, start, n)->Ok_0;
        let c = indexes::slots(indexes, total, index, count, start, m - 1)->Ok_0;
        assert(b.values.take(c.values.len() as int) =~= c.values);
        assert(b.values.take(a.values.len() as int) =~= c.values.take(a.values.len() as int));
    } else {
        assert(b.values.take(b.values.len() as int) =~= b.values);
    }
}

/// True when a reader knows after the first slots of a pack what the writer
/// knew: `now` is what the writer knew, `read` what the reader knows.
spec fn is_followed(
    block: int,
    pending: bool,
    big: bool,
    now: indexes::SlotState,
    base: int,
    read: (int, bool),
) -> bool {
    ||| {
        &&& big
        &&& now.block == block
        &&& now.pending == pending
        &&& now.base == block
        &&& now.open_base
        &&& read == (base, false)
    }
    ||| is_settled(now) && read == (now.block, now.pending)
}

/// A reader follows the writer of a pack by one more slot.
#[verifier::rlimit(50)]
#[verifier::spinoff_prover]
proof fn lemma_follow_step(
    block: int,
    pending: bool,
    big: bool,
    before: indexes::SlotState,
    r: Seq<u8>,
    ends_pack: bool,
    last: bool,
    now: indexes::SlotState,
    base: int,
    read: (int, bool),
    value: int,
)
    requires
        0 <= block <= 0xffff_ffff,
        0 <= before.block <= 0xffff_ffff,
        0 <= now.block <= 0xffff_ffff,
        indexes::with_slot(before, r, ends_pack, last) == Ok::<
            indexes::SlotState,
            indexes::IndexError,
        >(now),
        is_known(r, big),
        value == now.values.last(),
        before.unit == 0x1000,
        is_settled(before) ==> base == before.base,
        is_settled(now) ==> base == now.base,
        is_followed(block, pending, big, before, base, read),
    ensures
        is_followed(block, pending, big, now, base, pack_step(read, value)),
        is_same(
            Index { kind: value / 0x1000, low: value % 0x1000, block: pack_step(read, value).0 },
            r,
            last,
        ),
{
    let kind = bytes::le16(r, 0);
    let back = bytes::le16(r, 4);
    assert(0 <= kind <= 2);
    assert(kind % 0x100 == kind);
    assert(0 <= back <= 0xffff);
    assert(0 <= bytes::le16(r, 2) && 0 <= bytes::le16(r, 6));
    let low = value - kind * 0x1000;
    assert(0 <= low < 0x1000);
    assert(value / 0x1000 == kind);
    assert(value % 0x1000 == low);
    if kind == 2 {
        if back / 0x800 % 2 == 1 {
            assert(0x800 <= back < 0x1000);
            assert(low == back);
        } else {
            assert(low < 0x800);
        }
    }
}

/// A reader of a pack follows its writer.
#[verifier::rlimit(50)]
#[verifier::spinoff_prover]
proof fn lemma_pack_follows(
    indexes: Seq<u8>,
    total: int,
    index: int,
    count: int,
    block: int,
    pending: bool,
    big: bool,
    metadata: Seq<u8>,
    at: int,
    n: int,
)
    requires
        count == 2 || count == 16,
        0 <= n <= count,
        0 <= index,
        0 <= block <= 0xffff_ffff,
        !big ==> pending,
        are_known(indexes, big),
        indexes::slots(indexes, total, index, count, pack_start(block, pending, big), count) is Ok,
        ({
            let s = indexes::slots(
                indexes,
                total,
                index,
                count,
                pack_start(block, pending, big),
                count,
            )->Ok_0;
            bytes::stands_at(metadata, at, indexes::pack_bytes(s.values, s.base))
        }),
    ensures
        ({
            let start = pack_start(block, pending, big);
            let s = indexes::slots(indexes, total, index, count, start, count)->Ok_0;
            let now = indexes::slots(indexes, total, index, count, start, n)->Ok_0;
            &&& indexes::slots(indexes, total, index, count, start, n) is Ok
            &&& is_followed(
                block,
                pending,
                big,
                now,
                s.base,
                pack_state(metadata, at, count, big, n),
            )
            &&& n > 0 ==> is_same(
                pack_index(metadata, at, count, big, n - 1),
                indexes::record(indexes, index + n - 1),
                index + n >= total,
            )
        }),
    decreases n,
{
    let start = pack_start(block, pending, big);
    let s = indexes::slots(indexes, total, index, count, start, count)->Ok_0;
    lemma_slot_facts(indexes, total, index, count, block, pending, big, count);
    lemma_pack_values(metadata, at, s.values, s.base);
    lemma_slots_settle(indexes, total, index, count, start, n, count);
    if n > 0 {
        lemma_pack_follows(
            indexes,
            total,
            index,
            count,
            block,
            pending,
            big,
            metadata,
            at,
            n - 1,
        );
        lemma_slots_settle(indexes, total, index, count, start, n - 1, count);
        lemma_slot_facts(indexes, total, index, count, block, pending, big, n - 1);
        lemma_slot_facts(indexes, total, index, count, block, pending, big, n);
        let before = indexes::slots(indexes, total, index, count, start, n - 1)->Ok_0;
        let now = indexes::slots(indexes, total, index, count, start, n)->Ok_0;
        let r = indexes::record(indexes, index + n - 1);
        assert(is_known(r, big));
        let value = slot_value(metadata, at, count, n - 1);
        assert(value == s.values[n - 1]);
        assert(now.values == s.values.take(n));
        lemma_follow_step(
            block,
            pending,
            big,
            before,
            r,
            n == count,
            index + n >= total,
            now,
            s.base,
            pack_state(metadata, at, count, big, n - 1),
            value,
        );
    }
}

/// Compact indexes say what the full ones say.
#[verifier::rlimit(50)]
#[verifier::spinoff_prover]
proof fn lemma_compact_same(
    indexes: Seq<u8>,
    total: int,
    header_size: int,
    big: bool,
    index: int,
    block: int,
    pending: bool,
    metadata: Seq<u8>,
    at: int,
    i: int,
)
    requires
        0 <= index <= i < total,
        0 <= block <= 0xffff_ffff,
        !big ==> pending,
        are_known(indexes, big),
        indexes::compact_from(indexes, total, header_size, big, index, block, pending, 0x1000) is Ok,
        bytes::stands_at(
            metadata,
            at,
            indexes::compact_from(indexes, total, header_size, big, index, block, pending, 0x1000)->Ok_0,
        ),
    ensures
        is_same(
            compact_index(metadata, total, header_size, big, index, at, i),
            indexes::record(indexes, i),
            i + 1 >= total,
        ),
    decreases total - index,
{
    let count = indexes::pack_count(total, header_size, index);
    indexes::lemma_pack_count(total, header_size, index);
    let start = pack_start(block, pending, big);
    let s = indexes::slots(indexes, total, index, count, start, count)->Ok_0;
    let all = indexes::compact_from(
        indexes,
        total,
        header_size,
        big,
        index,
        block,
        pending,
        0x1000,
    )->Ok_0;
    let rest = indexes::compact_from(
        indexes,
        total,
        header_size,
        big,
        index + count,
        s.block,
        s.pending,
        0x1000,
    )->Ok_0;
    let pack = indexes::pack_bytes(s.values, s.base);
    assert(all == pack + rest);
    lemma_slot_facts(indexes, total, index, count, block, pending, big, count);
    indexes::lemma_pack_bytes(s.values, s.base);
    let part = metadata.subrange(at, at + all.len());
    assert(metadata.subrange(at, at + pack.len()) =~= part.subrange(0, pack.len() as int));
    assert(part.subrange(0, pack.len() as int) =~= pack);
    if i < index + count {
        lemma_pack_follows(
            indexes,
            total,
            index,
            count,
            block,
            pending,
            big,
            metadata,
            at,
            i - index + 1,
        );
    } else {
        let next = at + pack.len();
        assert(metadata.subrange(next, next + rest.len()) =~= part.subrange(
            pack.len() as int,
            all.len() as int,
        ));
        assert(part.subrange(pack.len() as int, all.len() as int) =~= rest);
        lemma_compact_same(
            indexes,
            total,
            header_size,
            big,
            index + count,
            s.block,
            s.pending,
            metadata,
            next,
            i,
        );
    }
}

// ---------------------------------------------------------------------------
// Moved compact indexes
// ---------------------------------------------------------------------------

/// Indexes are read from their own bytes alone.
#[verifier::rlimit(50)]
#[verifier::spinoff_prover]
proof fn lemma_compact_behind(
    a: Seq<u8>,
    b: Seq<u8>,
    total: int,
    header_size: int,
    big: bool,
    index: int,
    at: int,
    i: int,
)
    requires
        0 <= index <= i < total,
        a.len() == b.len(),
        0 <= at,
        at + indexes::packs_len(total, header_size, index) <= a.len(),
        forall|k: int| at <= k < a.len() ==> a[k] == b[k],
    ensures
        compact_index(a, total, header_size, big, index, at, i) == compact_index(
            b,
            total,
            header_size,
            big,
            index,
            at,
            i,
        ),
    decreases total - index,
{
    let count = indexes::pack_count(total, header_size, index);
    indexes::lemma_pack_count(total, header_size, index);
    indexes::lemma_packs_len(total, header_size, index + count);
    if i < index + count {
        assert(pack_base(a, at, count) == pack_base(b, at, count));
        lemma_pack_moves(a, b, at, count, big, 0, i - index + 1);
        assert(slot_value(b, at, count, i - index) == slot_value(a, at, count, i - index));
    } else {
        lemma_compact_behind(
            a,
            b,
            total,
            header_size,
            big,
            index + count,
            at + indexes::pack_size(count),
            i,
        );
    }
}

/// A pack that states a block further on finds every cluster that much further
/// on.
#[verifier::rlimit(50)]
#[verifier::spinoff_prover]
proof fn lemma_pack_moves(
    a: Seq<u8>,
    b: Seq<u8>,
    at: int,
    count: int,
    big: bool,
    shift: int,
    n: int,
)
    requires
        count == 2 || count == 16,
        0 <= n <= count,
        forall|k: int| at <= k < at + indexes::pack_size(count) - 4 ==> a[k] == b[k],
        pack_base(b, at, count) == pack_base(a, at, count) + shift,
        0 <= pack_base(b, at, count) <= 0xffff_ffff,
        0 <= shift,
    ensures
        forall|k: int|
            0 <= k < count ==> #[trigger] slot_value(b, at, count, k) == slot_value(
                a,
                at,
                count,
                k,
            ),
        0 <= pack_state(a, at, count, big, n).0 <= 0xffff_ffff,
        pack_state(b, at, count, big, n).0 == (pack_state(a, at, count, big, n).0 + shift)
            % 0x1_0000_0000,
        pack_state(b, at, count, big, n).1 == pack_state(a, at, count, big, n).1,
    decreases n,
{
    lemma_same_values(a, b, at, count);
    if n > 0 {
        lemma_pack_moves(a, b, at, count, big, shift, n - 1);
        let value = slot_value(a, at, count, n - 1);
        assert(slot_value(b, at, count, n - 1) == value);
        lemma_step_moves(
            pack_state(a, at, count, big, n - 1),
            pack_state(b, at, count, big, n - 1),
            shift,
            value,
        );
    } else {
        assert(pack_state(a, at, count, big, n).0 == pack_base(a, at, count));
        assert(pack_state(b, at, count, big, n).0 == pack_base(b, at, count));
        assert(0 <= pack_base(a, at, count));
    }
}

/// The values of a pack are read from its bytes.
#[verifier::rlimit(50)]
#[verifier::spinoff_prover]
proof fn lemma_same_values(a: Seq<u8>, b: Seq<u8>, at: int, count: int)
    requires
        count == 2 || count == 16,
        forall|k: int| at <= k < at + indexes::pack_size(count) - 4 ==> a[k] == b[k],
    ensures
        forall|k: int|
            0 <= k < count ==> #[trigger] slot_value(b, at, count, k) == slot_value(
                a,
                at,
                count,
                k,
            ),
{
    reveal(slot_value);
    assert forall|k: int| 0 <= k < count implies #[trigger] slot_value(b, at, count, k)
        == slot_value(a, at, count, k) by {
        if count == 16 {
            let from = at + 7 * (k / 4);
            assert(at <= from && from + 6 < at + 28);
            assert(le56(a, from) == le56(b, from));
        } else {
            assert(bytes::le16(a, at + 2 * k) == bytes::le16(b, at + 2 * k));
        }
    }
}

/// A slot moves what it finds with what was found before it.
#[verifier::rlimit(50)]
#[verifier::spinoff_prover]
proof fn lemma_step_moves(p: (int, bool), q: (int, bool), shift: int, value: int)
    requires
        q.0 == (p.0 + shift) % 0x1_0000_0000,
        q.1 == p.1,
        0 <= p.0 <= 0xffff_ffff,
    ensures
        pack_step(q, value).0 == (pack_step(p, value).0 + shift) % 0x1_0000_0000,
        pack_step(q, value).1 == pack_step(p, value).1,
        0 <= pack_step(p, value).0 <= 0xffff_ffff,
{
    let by = value % 0x1000 - 0x800;
    assert((q.0 + 1) % 0x1_0000_0000 == ((p.0 + 1) % 0x1_0000_0000 + shift) % 0x1_0000_0000);
    assert((q.0 + by) % 0x1_0000_0000 == ((p.0 + by) % 0x1_0000_0000 + shift) % 0x1_0000_0000);
}

/// Moved compact indexes say of every block what they said before, with the
/// blocks of the image moved on.
#[verifier::rlimit(50)]
#[verifier::spinoff_prover]
proof fn lemma_compact_moves(
    metadata: Seq<u8>,
    total: int,
    header_size: int,
    big: bool,
    shift: int,
    index: int,
    at: int,
    i: int,
)
    requires
        0 <= index <= i < total,
        8 <= at,
        at + indexes::packs_len(total, header_size, index) <= metadata.len(),
        0 <= shift,
        indexes::moved_packs(metadata, total, header_size, shift, index, at) is Ok,
    ensures
        ({
            let now = indexes::moved_packs(metadata, total, header_size, shift, index, at)->Ok_0;
            let x = compact_index(metadata, total, header_size, big, index, at, i);
            let y = compact_index(now, total, header_size, big, index, at, i);
            &&& y.kind == x.kind
            &&& y.low == x.low
            &&& y.block == (x.block + shift) % 0x1_0000_0000
        }),
    decreases total - index,
{
    let count = indexes::pack_count(total, header_size, index);
    indexes::lemma_pack_count(total, header_size, index);
    indexes::lemma_packs_len(total, header_size, index + count);
    let next = at + indexes::pack_size(count);
    let block = bytes::le32(metadata, next - 4) + shift;
    let patch = bytes::bytes32(block);
    let one = bytes::patched(metadata, next - 4, patch);
    bytes::lemma_bytes32(block);
    assert(patch.len() == 4);
    assert(one.len() == metadata.len());
    indexes::lemma_moved_packs(one, total, header_size, shift, index + count, next);
    let now = indexes::moved_packs(one, total, header_size, shift, index + count, next)->Ok_0;
    assert(now == indexes::moved_packs(
        metadata,
        total,
        header_size,
        shift,
        index,
        at,
    )->Ok_0);
    if i < index + count {
        assert forall|k: int| at <= k < next - 4 implies metadata[k] == now[k] by {
            assert(one[k] == metadata[k]);
            assert(now[k] == one[k]);
        }
        assert forall|k: int| 0 <= k < 4 implies now[next - 4 + k] == #[trigger] patch[k] by {
            assert(one[next - 4 + k] == patch[k]);
            assert(now[next - 4 + k] == one[next - 4 + k]);
        }
        assert(now[next - 4 + 0] == patch[0]);
        assert(pack_base(now, at, count) == block);
        lemma_pack_moves(metadata, now, at, count, big, shift, i - index + 1);
        assert(slot_value(now, at, count, i - index) == slot_value(
            metadata,
            at,
            count,
            i - index,
        ));
    } else {
        lemma_compact_moves(one, total, header_size, big, shift, index + count, next, i);
        lemma_compact_behind(metadata, one, total, header_size, big, index + count, next, i);
    }
}

// ---------------------------------------------------------------------------
// Compressed files
// ---------------------------------------------------------------------------

/// Known records behind known records are known.
proof fn lemma_known_join(a: Seq<u8>, b: Seq<u8>, big: bool)
    requires
        a.len() % 8 == 0,
        b.len() % 8 == 0,
        are_known(a, big),
        are_known(b, big),
    ensures
        are_known(a + b, big),
{
    let n = a.len() as int / 8;
    assert forall|i: int| 0 <= i implies is_known(#[trigger] indexes::record(a + b, i), big) by {
        if i < n {
            assert((a + b).subrange(8 * i, 8 * i + 8) =~= a.subrange(8 * i, 8 * i + 8));
            assert(indexes::record(a + b, i) == indexes::record(a, i));
        } else {
            if 8 * (i + 1) <= (a + b).len() {
                assert((a + b).subrange(8 * i, 8 * i + 8) =~= b.subrange(
                    8 * (i - n),
                    8 * (i - n) + 8,
                ));
            }
            assert(indexes::record(a + b, i) == indexes::record(b, i - n));
        }
    }
}

/// A single known record is known.
proof fn lemma_known_one(r: Seq<u8>, big: bool)
    requires
        r.len() == 8,
        is_known(r, big),
    ensures
        are_known(r, big),
{
    assert forall|i: int| 0 <= i implies is_known(#[trigger] indexes::record(r, i), big) by {
        if i == 0 {
            assert(r.subrange(0, 8) =~= r);
        }
    }
}

proof fn lemma_known_head(kind: int, offset: int, block: int, big: bool)
    requires
        0 <= kind <= 1,
    ensures
        compression::index_record(kind, offset, bytes::bytes32(block)).len() == 8,
        are_known(compression::index_record(kind, offset, bytes::bytes32(block)), big),
{
    let r = compression::index_record(kind, offset, bytes::bytes32(block));
    bytes::lemma_bytes16(kind);
    assert(r[0] == bytes::bytes16(kind)[0] && r[1] == bytes::bytes16(kind)[1]);
    assert(bytes::le16(r, 0) == kind);
    lemma_known_one(r, big);
}

/// The records of a cluster are known.
proof fn lemma_known_records(
    kind: int,
    offset: int,
    block: int,
    forward: int,
    blocks: int,
    big: bool,
    count: int,
)
    requires
        0 <= kind <= 1,
        0 <= blocks < 0x800,
        0 <= count,
    ensures
        are_known(
            compression::cluster_records(kind, offset, block, forward, blocks, big, count),
            big,
        ),
    decreases count,
{
    if count == 1 {
        lemma_known_head(kind, offset, block, big);
    } else if count > 1 {
        lemma_known_records(kind, offset, block, forward, blocks, big, count - 1);
        indexes::lemma_cluster_records(kind, offset, block, forward, blocks, big, count - 1);
        let back = count - 1;
        let r = compression::inner_record(offset, back, forward - back, blocks, big);
        let delta = if back == 1 && big {
            blocks + 0x800
        } else if back < 0x7ff {
            back
        } else {
            0x7ff
        };
        bytes::lemma_bytes16(2);
        bytes::lemma_bytes16(delta);
        assert(r[0] == bytes::bytes16(2)[0] && r[1] == bytes::bytes16(2)[1]);
        assert(r[4] == bytes::bytes16(delta)[0] && r[5] == bytes::bytes16(delta)[1]);
        assert(bytes::le16(r, 0) == 2);
        assert(bytes::le16(r, 4) == delta);
        lemma_known_one(r, big);
        lemma_known_join(
            compression::cluster_records(kind, offset, block, forward, blocks, big, count - 1),
            r,
            big,
        );
    }
}

/// The records of some clusters are known.
#[verifier::rlimit(50)]
#[verifier::spinoff_prover]
proof fn lemma_all_known<F: Fn(&[u8], usize) -> Option<(usize, Vec<u8>)>>(
    lz4: F,
    input: Seq<u8>,
    start: int,
    block_size: int,
    cluster_size: usize,
    method: Compression,
    clusters: Seq<Cluster>,
    n: int,
)
    requires
        compression::is_block_size(block_size),
        compression::is_cluster_size(cluster_size as int, block_size),
        compression::is_run(lz4, input, block_size, cluster_size, method, clusters),
        0 <= n <= clusters.len(),
    ensures
        ({
            let big = cluster_size > block_size;
            let s = compression::indexes_of(clusters, start, block_size, big, n);
            &&& s.bytes.len() >= 16
            &&& s.bytes.len() % 8 == 0
            &&& s.offset >= 0
            &&& are_known(s.bytes.skip(16), big)
        }),
    decreases n,
{
    let b = block_size;
    let big = cluster_size > block_size;
    let s = compression::indexes_of(clusters, start, b, big, n);
    if n > 0 {
        lemma_all_known(lz4, input, start, b, cluster_size, method, clusters, n - 1);
        let before = compression::indexes_of(clusters, start, b, big, n - 1);
        let c = clusters[n - 1];
        let at = compression::consumed_by(clusters, n - 1);
        assert(compression::follows(lz4, input, b, cluster_size, method, clusters, n - 1));
        reveal(compression::follows);
        indexes::lemma_cluster_bounds(lz4, input, at, b, cluster_size, method, c);
        lemma_stored_blocks(lz4, input, at, b, cluster_size, method, c);
        let block = (start + compression::stored_by(clusters, n - 1).len()) / b;
        let blocks = c.stored.len() as int / b;
        vstd::arithmetic::div_mod::lemma_div_pos_is_pos(c.stored.len() as int, b);
        let kind = if c.raw {
            0int
        } else {
            1
        };
        let end = before.offset + c.consumed;
        let forward = end / b;
        vstd::arithmetic::div_mod::lemma_div_pos_is_pos(end, b);
        vstd::arithmetic::div_mod::lemma_mod_bound(end, b);
        let more = if forward == 0 {
            compression::index_record(kind, before.offset, bytes::bytes32(block))
        } else {
            compression::cluster_records(kind, before.offset, block, forward, blocks, big, forward)
        };
        lemma_known_head(kind, before.offset, block, big);
        lemma_known_records(kind, before.offset, block, forward, blocks, big, forward);
        indexes::lemma_cluster_records(kind, before.offset, block, forward, blocks, big, forward);
        assert(s.bytes == before.bytes + more);
        lemma_known_join(before.bytes.skip(16), more, big);
        assert(s.bytes.skip(16) =~= before.bytes.skip(16) + more);
    } else {
        assert(s.bytes.len() == 16);
        assert forall|i: int| 0 <= i implies is_known(
            #[trigger] indexes::record(s.bytes.skip(16), i),
            big,
        ) by {}
    }
}

/// What the records of a whole file are, and what stands before them.
proof fn lemma_whole_metadata<F: Fn(&[u8], usize) -> Option<(usize, Vec<u8>)>>(
    lz4: F,
    input: Seq<u8>,
    start: int,
    block_size: int,
    cluster_size: usize,
    method: Compression,
    clusters: Seq<Cluster>,
)
    requires
        compression::is_block_size(block_size),
        compression::is_cluster_size(cluster_size as int, block_size),
        compression::is_run(lz4, input, block_size, cluster_size, method, clusters),
    ensures
        ({
            let big = cluster_size > block_size;
            let metadata = compression::ended(
                compression::indexes_of(clusters, start, block_size, big, clusters.len() as int),
            );
            &&& metadata.len() >= 16
            &&& are_known(metadata.skip(16), big)
            &&& indexes::is_big(metadata) == big
        }),
{
    let n = clusters.len() as int;
    let big = cluster_size > block_size;
    let s = compression::indexes_of(clusters, start, block_size, big, n);
    let metadata = compression::ended(s);
    lemma_all_known(lz4, input, start, block_size, cluster_size, method, clusters, n);
    if s.offset != 0 {
        let r = compression::index_record(0, s.offset, bytes::bytes32(0));
        lemma_known_head(0, s.offset, 0, big);
        lemma_known_join(s.bytes.skip(16), r, big);
        assert(metadata.skip(16) =~= s.bytes.skip(16) + r);
    }
    reading::lemma_indexes_grow(clusters, start, block_size, big, 0, n);
    let first = compression::no_indexes(big).bytes;
    let flags = bytes::bytes16(
        if big {
            2
        } else {
            0
        },
    );
    assert(first[4] == flags[0] && first[5] == flags[1]);
    assert(s.bytes.take(16)[4] == s.bytes[4]);
    assert(s.bytes.take(16)[5] == s.bytes[5]);
    assert(metadata[4] == s.bytes[4] && metadata[5] == s.bytes[5]);
    bytes::lemma_bytes16(2);
    bytes::lemma_bytes16(0);
}

/// What is the same as a full record says what its index says.
proof fn lemma_same_as_full(metadata: Seq<u8>, i: int, x: Index, last: bool, big: bool)
    requires
        0 <= i,
        16 + 8 * (i + 1) <= metadata.len(),
        is_known(indexes::record(metadata.skip(16), i), big),
        is_same(x, indexes::record(metadata.skip(16), i), last),
    ensures
        x.kind == full_index(metadata, i).kind,
        starts_cluster(x) ==> x.low == full_index(metadata, i).low,
        starts_cluster(x) && full_index(metadata, i).block != 0 ==> x.block == full_index(
            metadata,
            i,
        ).block,
        !starts_cluster(x) && full_index(metadata, i).low >= 0x800 ==> x.low == full_index(
            metadata,
            i,
        ).low,
{
    let r = indexes::record(metadata.skip(16), i);
    let at = 16 + 8 * i;
    assert(r =~= metadata.subrange(at, at + 8));
    assert forall|k: int| 0 <= k < 8 implies r[k] == #[trigger] metadata[at + k] by {}
    assert(r[0] == metadata[at + 0]);
    assert(bytes::le16(r, 0) == bytes::le16(metadata, at));
    assert(bytes::le16(r, 2) == bytes::le16(metadata, at + 2));
    assert(bytes::le16(r, 4) == bytes::le16(metadata, at + 4));
    assert(bytes::le32(r, 4) == bytes::le32(metadata, at + 4));
}

/// The block before the first cluster, as the packs are told of it.
spec fn block_before(records: Seq<u8>, big: bool) -> int {
    let first = bytes::le32(records, 4);
    if big {
        first
    } else if first == 0 {
        0xffff_ffff
    } else {
        first - 1
    }
}

/// Where the packs of compact indexes stand, and what stands before them.
#[verifier::rlimit(50)]
#[verifier::spinoff_prover]
proof fn lemma_compact_parts(
    metadata: Seq<u8>,
    header_size: int,
    block_size: int,
    big: bool,
    compact: Seq<u8>,
)
    requires
        compression::is_block_size(block_size),
        metadata.len() >= 16,
        indexes::is_big(metadata) == big,
        indexes::compacted(metadata, header_size, block_size) == Ok::<Seq<u8>, indexes::IndexError>(
            compact,
        ),
    ensures
        ({
            let records = metadata.skip(16);
            let packs = indexes::compact_from(
                records,
                records.len() as int / 8,
                header_size,
                big,
                0,
                block_before(records, big),
                !big,
                0x1000,
            );
            &&& packs is Ok
            &&& bytes::stands_at(compact, 8, packs->Ok_0)
            &&& indexes::is_big(compact) == big
            &&& 0 <= block_before(records, big) <= 0xffff_ffff
        }),
{
    let records = metadata.skip(16);
    let packs = indexes::compact_from(
        records,
        records.len() as int / 8,
        header_size,
        big,
        0,
        block_before(records, big),
        !big,
        0x1000,
    )->Ok_0;
    let flags = bytes::bytes16(
        if big {
            7
        } else {
            1
        },
    );
    let front = metadata.take(4) + flags + metadata.subrange(6, 8);
    assert(front.len() == 8);
    assert(compact == front + packs);
    assert(compact.subrange(8, 8 + packs.len() as int) =~= packs);
    assert(compact[4] == flags[0] && compact[5] == flags[1]);
    bytes::lemma_bytes16(7);
    bytes::lemma_bytes16(1);
}

/// Compact indexes that were moved say of every block what the full ones say,
/// with the blocks of the image moved on.
#[verifier::rlimit(50)]
#[verifier::spinoff_prover]
proof fn lemma_compact_moved_same(
    metadata: Seq<u8>,
    total: int,
    header_size: int,
    block_size: int,
    big: bool,
    shift: int,
    compact: Seq<u8>,
    now: Seq<u8>,
    i: int,
)
    requires
        compression::is_block_size(block_size),
        0 <= i < total,
        metadata.len() == 16 + 8 * total,
        are_known(metadata.skip(16), big),
        indexes::is_big(metadata) == big,
        0 <= shift,
        indexes::compacted(metadata, header_size, block_size) == Ok::<Seq<u8>, indexes::IndexError>(
            compact,
        ),
        indexes::moved_packs(compact, total, header_size, shift, 0, 8) == Ok::<
            Seq<u8>,
            indexes::IndexError,
        >(now),
    ensures
        ({
            let x = compact_index(now, total, header_size, big, 0, 8, i);
            let full = full_index(metadata, i);
            &&& x.kind == full.kind
            &&& starts_cluster(full) ==> x.low == full.low
            &&& starts_cluster(full) && full.block != 0 ==> x.block == (full.block + shift)
                % 0x1_0000_0000
            &&& !starts_cluster(full) && full.low >= 0x800 ==> x.low == full.low
        }),
{
    let records = metadata.skip(16);
    assert(records.len() == 8 * total);
    lemma_compact_parts(metadata, header_size, block_size, big, compact);
    lemma_compact_same(
        records,
        total,
        header_size,
        big,
        0,
        block_before(records, big),
        !big,
        compact,
        8,
        i,
    );
    let old = compact_index(compact, total, header_size, big, 0, 8, i);
    assert(is_known(indexes::record(records, i), big));
    lemma_same_as_full(metadata, i, old, i + 1 >= total, big);
    indexes::law_compact_length(metadata, header_size, block_size);
    lemma_compact_moves(compact, total, header_size, big, shift, 0, 8, i);
}

/// True when an index says what another says, with the block of the image moved
/// on.
spec fn is_moved_index(full: Index, x: Index, shift: int) -> bool {
    &&& x.kind == full.kind
    &&& starts_cluster(full) ==> x.low == full.low
    &&& starts_cluster(full) && full.block != 0 ==> x.block == (full.block + shift) % 0x1_0000_0000
    &&& !starts_cluster(full) && full.low >= 0x800 ==> x.low == full.low
}

spec fn are_moved_indexes(full: Seq<Index>, list: Seq<Index>, shift: int) -> bool {
    &&& list.len() == full.len()
    &&& forall|i: int| 0 <= i < full.len() ==> is_moved_index(full[i], #[trigger] list[i], shift)
}

/// A list whose blocks are moved on finds the clusters that much further on.
#[verifier::rlimit(50)]
#[verifier::spinoff_prover]
proof fn lemma_finds_moved(
    full: Seq<Index>,
    list: Seq<Index>,
    clusters: Seq<Cluster>,
    start: int,
    shift: int,
    block_size: int,
    big: bool,
    j: int,
)
    requires
        compression::is_block_size(block_size),
        block_size <= start,
        0 <= shift,
        (start + compression::stored_by(clusters, j).len()) / block_size + shift <= 0xffff_ffff,
        are_moved_indexes(full, list, shift),
        finds(full, clusters, start, block_size, big, j),
    ensures
        finds(list, clusters, start + shift * block_size, block_size, big, j),
{
    let b = block_size;
    let first = compression::consumed_by(clusters, j) / b;
    let next = index_end(clusters, b, j);
    let offset = compression::stored_by(clusters, j).len() as int;
    vstd::arithmetic::div_mod::lemma_div_is_ordered(b, start + offset, b);
    vstd::arithmetic::div_mod::lemma_div_by_self(b);
    indexes::lemma_block_moves(start + offset, b, shift);
    assert(start + offset + shift * b == start + shift * b + offset);
    let was = full[first].block;
    assert(1 <= was && was + shift <= 0xffff_ffff);
    assert(is_moved_index(full[first], list[first], shift));
    assert(list[first].block == was + shift);
    assert forall|k: int| first < k < next implies !starts_cluster(#[trigger] list[k]) by {
        assert(is_moved_index(full[k], list[k], shift));
        assert(!starts_cluster(full[k]));
    }
    vstd::arithmetic::div_mod::lemma_div_pos_is_pos(clusters[j].stored.len() as int, b);
    if big && first + 1 < next {
        assert(is_moved_index(full[first + 1], list[first + 1], shift));
        assert(!starts_cluster(full[first + 1]));
    }
    if next < full.len() {
        assert(is_moved_index(full[next], list[next], shift));
    }
}

/// Compact indexes that were moved find every cluster where it was moved to.
#[verifier::rlimit(50)]
#[verifier::spinoff_prover]
proof fn lemma_compact_finds<F: Fn(&[u8], usize) -> Option<(usize, Vec<u8>)>>(
    lz4: F,
    input: Seq<u8>,
    start: int,
    block_size: int,
    cluster_size: usize,
    method: Compression,
    clusters: Seq<Cluster>,
    header_size: int,
    shift: int,
    compact: Seq<u8>,
    now: Seq<u8>,
    j: int,
)
    requires
        compression::is_block_size(block_size),
        compression::is_cluster_size(cluster_size as int, block_size),
        compression::is_run(lz4, input, block_size, cluster_size, method, clusters),
        compression::consumed_by(clusters, clusters.len() as int) == input.len(),
        block_size <= start,
        0 <= shift,
        (start + compression::stored_by(clusters, clusters.len() as int).len()) / block_size + shift
            <= 0xffff_ffff,
        0 <= j < clusters.len(),
        indexes::compacted(
            compression::ended(
                compression::indexes_of(
                    clusters,
                    start,
                    block_size,
                    cluster_size > block_size,
                    clusters.len() as int,
                ),
            ),
            header_size,
            block_size,
        ) == Ok::<Seq<u8>, indexes::IndexError>(compact),
        indexes::moved_packs(
            compact,
            indexes::block_count(input.len() as int, block_size),
            header_size,
            shift,
            0,
            8,
        ) == Ok::<Seq<u8>, indexes::IndexError>(now),
    ensures
        finds(
            compact_indexes(
                now,
                indexes::block_count(input.len() as int, block_size),
                header_size,
                cluster_size > block_size,
            ),
            clusters,
            start + shift * block_size,
            block_size,
            cluster_size > block_size,
            j,
        ),
{
    let b = block_size;
    let n = clusters.len() as int;
    let big = cluster_size > block_size;
    let metadata = compression::ended(compression::indexes_of(clusters, start, b, big, n));
    let total = indexes::block_count(input.len() as int, b);
    let full = full_indexes(metadata, total);
    let list = compact_indexes(now, total, header_size, big);
    indexes::lemma_ended_count(lz4, input, start, b, cluster_size, method, clusters);
    lemma_whole_metadata(lz4, input, start, b, cluster_size, method, clusters);
    lemma_full_finds(lz4, input, start, b, cluster_size, method, clusters, j);
    assert forall|i: int| 0 <= i < full.len() implies is_moved_index(
        full[i],
        #[trigger] list[i],
        shift,
    ) by {
        lemma_compact_moved_same(metadata, total, header_size, b, big, shift, compact, now, i);
    }
    reading::lemma_stored_grows(clusters, j, n);
    vstd::arithmetic::div_mod::lemma_div_is_ordered(
        start + compression::stored_by(clusters, j).len(),
        start + compression::stored_by(clusters, n).len(),
        b,
    );
    lemma_finds_moved(full, list, clusters, start, shift, b, big, j);
}

/// The indexes of a file of `total` blocks, in the form that its inode states.
pub open spec fn index_list(
    metadata: Seq<u8>,
    total: int,
    header_size: int,
    compact: bool,
) -> Seq<Index> {
    if compact {
        compact_indexes(metadata, total, header_size, indexes::is_big(metadata))
    } else {
        full_indexes(metadata, total)
    }
}

/// What a reader makes of a file of `size` bytes with the given indexes.
pub open spec fn read_indexed(
    image: Seq<u8>,
    metadata: Seq<u8>,
    size: int,
    block_size: int,
    header_size: int,
    compact: bool,
    unpack: spec_fn(Seq<u8>) -> Seq<u8>,
) -> Seq<u8> {
    read_extents(
        image,
        index_list(metadata, indexes::block_count(size, block_size), header_size, compact),
        size,
        block_size,
        indexes::is_big(metadata),
        unpack,
        0,
    )
}

/// Full indexes that were moved find every cluster.
#[verifier::rlimit(50)]
#[verifier::spinoff_prover]
proof fn lemma_full_moved_finds<F: Fn(&[u8], usize) -> Option<(usize, Vec<u8>)>>(
    lz4: F,
    input: Seq<u8>,
    start: int,
    shift: int,
    block_size: int,
    cluster_size: usize,
    method: Compression,
    clusters: Seq<Cluster>,
    now: Seq<u8>,
)
    requires
        compression::is_block_size(block_size),
        compression::is_cluster_size(cluster_size as int, block_size),
        compression::is_run(lz4, input, block_size, cluster_size, method, clusters),
        compression::consumed_by(clusters, clusters.len() as int) == input.len(),
        block_size <= start,
        0 <= shift,
        (start + compression::stored_by(clusters, clusters.len() as int).len()) / block_size + shift
            <= 0xffff_ffff,
        ({
            let full = compression::ended(
                compression::indexes_of(
                    clusters,
                    start,
                    block_size,
                    cluster_size > block_size,
                    clusters.len() as int,
                ),
            );
            indexes::moved(full, shift, (full.len() - 16) / 8) == Ok::<
                Seq<u8>,
                indexes::IndexError,
            >(now)
        }),
    ensures
        indexes::is_big(now) == (cluster_size > block_size),
        finds_all(
            full_indexes(now, indexes::block_count(input.len() as int, block_size)),
            clusters,
            start + shift * block_size,
            block_size,
            cluster_size > block_size,
        ),
{
    let b = block_size;
    let n = clusters.len() as int;
    let big = cluster_size > block_size;
    let place = start + shift * b;
    assert forall|i: int| 0 <= i < n implies (#[trigger] clusters[i]).consumed > 0 by {
        assert(compression::follows(lz4, input, b, cluster_size, method, clusters, i));
        reveal(compression::follows);
        indexes::lemma_cluster_bounds(
            lz4,
            input,
            compression::consumed_by(clusters, i),
            b,
            cluster_size,
            method,
            clusters[i],
        );
    }
    indexes::law_moved_indexes_find_moved_data(clusters, start, shift, b, big);
    lemma_whole_metadata(lz4, input, place, b, cluster_size, method, clusters);
    let length = compression::stored_by(clusters, n).len() as int;
    indexes::lemma_block_moves(start + length, b, shift);
    assert(start + length + shift * b == place + length);
    vstd::arithmetic::mul::lemma_mul_nonnegative(shift, b);
    let list = full_indexes(now, indexes::block_count(input.len() as int, b));
    assert forall|j: int| 0 <= j < n implies #[trigger] finds(list, clusters, place, b, big, j) by {
        lemma_full_finds(lz4, input, place, b, cluster_size, method, clusters, j);
    }
}

/// Compact indexes keep saying what clusters they are of when they are moved.
#[verifier::rlimit(50)]
#[verifier::spinoff_prover]
proof fn lemma_compact_stays_big<F: Fn(&[u8], usize) -> Option<(usize, Vec<u8>)>>(
    lz4: F,
    input: Seq<u8>,
    start: int,
    shift: int,
    block_size: int,
    cluster_size: usize,
    method: Compression,
    clusters: Seq<Cluster>,
    header_size: int,
    compact: Seq<u8>,
    now: Seq<u8>,
)
    requires
        compression::is_block_size(block_size),
        compression::is_cluster_size(cluster_size as int, block_size),
        compression::is_run(lz4, input, block_size, cluster_size, method, clusters),
        compression::consumed_by(clusters, clusters.len() as int) == input.len(),
        block_size <= start,
        0 <= shift,
        (start + compression::stored_by(clusters, clusters.len() as int).len()) / block_size + shift
            <= 0xffff_ffff,
        indexes::compacted(
            compression::ended(
                compression::indexes_of(
                    clusters,
                    start,
                    block_size,
                    cluster_size > block_size,
                    clusters.len() as int,
                ),
            ),
            header_size,
            block_size,
        ) == Ok::<Seq<u8>, indexes::IndexError>(compact),
        indexes::moved_packs(
            compact,
            indexes::block_count(input.len() as int, block_size),
            header_size,
            shift,
            0,
            8,
        ) == Ok::<Seq<u8>, indexes::IndexError>(now),
    ensures
        indexes::is_big(now) == (cluster_size > block_size),
{
    let b = block_size;
    let n = clusters.len() as int;
    let big = cluster_size > block_size;
    let metadata = compression::ended(compression::indexes_of(clusters, start, b, big, n));
    let total = indexes::block_count(input.len() as int, b);
    lemma_whole_metadata(lz4, input, start, b, cluster_size, method, clusters);
    lemma_compact_parts(metadata, header_size, block_size, big, compact);
    indexes::lemma_ended_count(lz4, input, start, b, cluster_size, method, clusters);
    if n > 0 {
        assert(compression::follows(lz4, input, b, cluster_size, method, clusters, 0));
        reveal(compression::follows);
        vstd::arithmetic::div_mod::lemma_div_is_ordered(b, input.len() + b - 1, b);
        vstd::arithmetic::div_mod::lemma_div_by_self(b);
        assert(total >= 1);
        indexes::law_compact_length(metadata, header_size, block_size);
    } else {
        lemma_no_packs(compact, input.len() as int, b, header_size, shift, now);
    }
    indexes::lemma_moved_packs(compact, total, header_size, shift, 0, 8);
    assert(compact.len() >= 8);
    assert(now[4] == compact[4] && now[5] == compact[5]);
}

/// Indexes that were moved find every cluster.
#[verifier::rlimit(50)]
#[verifier::spinoff_prover]
proof fn lemma_moved_finds<F: Fn(&[u8], usize) -> Option<(usize, Vec<u8>)>>(
    lz4: F,
    input: Seq<u8>,
    start: int,
    shift: int,
    block_size: int,
    cluster_size: usize,
    method: Compression,
    clusters: Seq<Cluster>,
    header_size: int,
    compact: bool,
    metadata: Seq<u8>,
    now: Seq<u8>,
)
    requires
        compression::is_block_size(block_size),
        compression::is_cluster_size(cluster_size as int, block_size),
        compression::is_run(lz4, input, block_size, cluster_size, method, clusters),
        compression::consumed_by(clusters, clusters.len() as int) == input.len(),
        block_size <= start,
        0 <= shift,
        (start + compression::stored_by(clusters, clusters.len() as int).len()) / block_size + shift
            <= 0xffff_ffff,
        ({
            let full = compression::ended(
                compression::indexes_of(
                    clusters,
                    start,
                    block_size,
                    cluster_size > block_size,
                    clusters.len() as int,
                ),
            );
            if compact {
                indexes::compacted(full, header_size, block_size) == Ok::<
                    Seq<u8>,
                    indexes::IndexError,
                >(metadata)
            } else {
                metadata == full
            }
        }),
        indexes::relocated(
            metadata,
            header_size,
            indexes::block_count(input.len() as int, block_size),
            compact,
            shift,
        ) == Ok::<Seq<u8>, indexes::IndexError>(now),
    ensures
        indexes::is_big(now) == (cluster_size > block_size),
        finds_all(
            index_list(
                now,
                indexes::block_count(input.len() as int, block_size),
                header_size,
                compact,
            ),
            clusters,
            start + shift * block_size,
            block_size,
            cluster_size > block_size,
        ),
{
    let b = block_size;
    let n = clusters.len() as int;
    let big = cluster_size > block_size;
    let total = indexes::block_count(input.len() as int, b);
    let place = start + shift * b;
    if compact {
        lemma_compact_stays_big(
            lz4,
            input,
            start,
            shift,
            b,
            cluster_size,
            method,
            clusters,
            header_size,
            metadata,
            now,
        );
        let list = index_list(now, total, header_size, compact);
        assert forall|j: int| 0 <= j < n implies #[trigger] finds(
            list,
            clusters,
            place,
            b,
            big,
            j,
        ) by {
            lemma_compact_finds(
                lz4,
                input,
                start,
                b,
                cluster_size,
                method,
                clusters,
                header_size,
                shift,
                metadata,
                now,
                j,
            );
        }
    } else {
        lemma_full_moved_finds(
            lz4,
            input,
            start,
            shift,
            b,
            cluster_size,
            method,
            clusters,
            now,
        );
    }
}

/// An empty file has no packs.
proof fn lemma_no_packs(
    metadata: Seq<u8>,
    size: int,
    block_size: int,
    header_size: int,
    shift: int,
    now: Seq<u8>,
)
    requires
        size == 0,
        block_size > 0,
        indexes::moved_packs(
            metadata,
            indexes::block_count(size, block_size),
            header_size,
            shift,
            0,
            8,
        ) == Ok::<Seq<u8>, indexes::IndexError>(now),
    ensures
        indexes::packs_len(indexes::block_count(size, block_size), header_size, 0) == 0,
        metadata.len() == 8,
{
    assert(indexes::block_count(size, block_size) == 0) by {
        vstd::arithmetic::div_mod::lemma_basic_div(block_size - 1, block_size);
    }
}

/// A compressed file whose data was moved, and its indexes with it, reads back
/// as the file, with full indexes and with compact ones, with whatever undoes
/// the compressor.
#[verifier::rlimit(50)]
#[verifier::spinoff_prover]
pub proof fn law_moved_files_read_back<F: Fn(&[u8], usize) -> Option<(usize, Vec<u8>)>>(
    lz4: F,
    unpack: spec_fn(Seq<u8>) -> Seq<u8>,
    input: Seq<u8>,
    start: int,
    shift: int,
    block_size: int,
    cluster_size: usize,
    method: Compression,
    file: compression::CompressedFile,
    stored: Seq<u8>,
    header_size: int,
    compact: bool,
    metadata: Seq<u8>,
    now: Seq<u8>,
    img: Seq<u8>,
)
    requires
        compression::is_block_size(block_size),
        compression::is_cluster_size(cluster_size as int, block_size),
        block_size <= start,
        start % block_size == 0,
        0 <= shift,
        compression::compresses_to(
            lz4,
            input,
            start,
            block_size,
            cluster_size,
            method,
            file,
            stored,
        ),
        reading::undoes(unpack, lz4),
        if compact {
            indexes::compacted(file.metadata@, header_size, block_size) == Ok::<
                Seq<u8>,
                indexes::IndexError,
            >(metadata)
        } else {
            metadata == file.metadata@
        },
        indexes::relocated(
            metadata,
            header_size,
            indexes::block_count(input.len() as int, block_size),
            compact,
            shift,
        ) == Ok::<Seq<u8>, indexes::IndexError>(now),
        bytes::stands_at(img, start + shift * block_size, stored),
        img.len() as int / block_size <= 0xffff_ffff,
    ensures
        read_indexed(
            img,
            now,
            input.len() as int,
            block_size,
            header_size,
            compact,
            unpack,
        ) == input,
{
    let b = block_size;
    let clusters = choose|clusters: Seq<Cluster>|
        #[trigger] compression::is_compressed(
            lz4,
            input,
            start,
            block_size,
            cluster_size,
            method,
            clusters,
            file,
            stored,
        );
    let n = clusters.len() as int;
    let big = cluster_size > block_size;
    let total = indexes::block_count(input.len() as int, b);
    let place = start + shift * b;
    let length = stored.len() as int;
    indexes::lemma_block_moves(start + length, b, shift);
    assert(start + length + shift * b == place + length);
    vstd::arithmetic::div_mod::lemma_div_is_ordered(place + length, img.len() as int, b);
    lemma_moved_finds(
        lz4,
        input,
        start,
        shift,
        b,
        cluster_size,
        method,
        clusters,
        header_size,
        compact,
        metadata,
        now,
    );
    vstd::arithmetic::div_mod::lemma_mod_multiples_vanish(shift, start, b);
    vstd::arithmetic::mul::lemma_mul_is_commutative(shift, b);
    vstd::arithmetic::div_mod::lemma_basic_div(0, b);
    let list = index_list(now, total, header_size, compact);
    if n > 0 {
        vstd::arithmetic::div_mod::lemma_div_pos_is_pos(input.len() + b - 1, b);
        lemma_extents_read_back(
            lz4,
            unpack,
            input,
            place,
            b,
            cluster_size,
            method,
            clusters,
            list,
            img,
            0,
        );
        assert(input.skip(0) =~= input);
    } else {
        assert(input =~= Seq::<u8>::empty());
        vstd::arithmetic::div_mod::lemma_basic_div(b - 1, b);
        assert(total == 0);
    }
}

} // verus!
