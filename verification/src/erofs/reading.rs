//! What a reader finds in an image: the clusters of compressed files, and
//! attributes.

use vstd::prelude::*;

use crate::bytes;
use crate::erofs::compression::{
    self, Cluster, CompressedFile, Compression, Z_EROFS_LCLUSTER_TYPE_HEAD1,
    Z_EROFS_LCLUSTER_TYPE_PLAIN,
};
use crate::erofs::indexes;
use crate::erofs::layout::{
    EROFS_XATTR_INDEX_POSIX_ACL_ACCESS, EROFS_XATTR_INDEX_POSIX_ACL_DEFAULT,
    EROFS_XATTR_INDEX_SECURITY, EROFS_XATTR_INDEX_TRUSTED, EROFS_XATTR_INDEX_USER,
};
use crate::erofs::xattrs::{self, XattrError, XattrParts};

verus! {

// ---------------------------------------------------------------------------
// Compressed files
// ---------------------------------------------------------------------------

/// `s` without the zeros that it starts with.
pub open spec fn unpadded(s: Seq<u8>) -> Seq<u8>
    decreases s.len(),
{
    if s.len() == 0 || s[0] != 0 {
        s
    } else {
        unpadded(s.skip(1))
    }
}

/// What a reader makes of a stored cluster: compressed data has zeros before
/// it, other data has zeros behind it.
pub open spec fn read_cluster(c: Cluster, unpack: spec_fn(Seq<u8>) -> Seq<u8>) -> Seq<u8> {
    if c.raw {
        c.stored.take(c.consumed)
    } else {
        unpack(unpadded(c.stored))
    }
}

/// What a reader makes of the first `n` clusters.
pub open spec fn read_clusters(
    clusters: Seq<Cluster>,
    unpack: spec_fn(Seq<u8>) -> Seq<u8>,
    n: int,
) -> Seq<u8>
    decreases n,
{
    if n <= 0 {
        seq![]
    } else {
        read_clusters(clusters, unpack, n - 1) + read_cluster(clusters[n - 1], unpack)
    }
}

/// True when `unpack` undoes what `lz4` does, and compressed data never starts
/// with a zero.
pub open spec fn undoes<F: Fn(&[u8], usize) -> Option<(usize, Vec<u8>)>>(
    unpack: spec_fn(Seq<u8>) -> Seq<u8>,
    lz4: F,
) -> bool {
    forall|source: Seq<u8>, capacity: usize, consumed: int, packed: Seq<u8>|
        #[trigger] compression::answers(lz4, source, capacity, consumed, packed)
            && compression::is_answer(source, capacity as int, consumed, packed) ==> packed[0] != 0
            && unpack(packed) == source.take(consumed)
}

proof fn lemma_unpadded(count: int, s: Seq<u8>)
    requires
        s.len() > 0,
        s[0] != 0,
        count >= 0,
    ensures
        unpadded(bytes::filled(0, count) + s) == s,
    decreases count,
{
    let padded = bytes::filled(0, count) + s;
    if count == 0 {
        assert(padded =~= s);
    } else {
        lemma_unpadded(count - 1, s);
        assert(padded.skip(1) =~= bytes::filled(0, count - 1) + s);
    }
}

/// A cluster reads back as its part of the file.
pub(crate) proof fn lemma_cluster_reads_back<F: Fn(&[u8], usize) -> Option<(usize, Vec<u8>)>>(
    lz4: F,
    unpack: spec_fn(Seq<u8>) -> Seq<u8>,
    input: Seq<u8>,
    at: int,
    block_size: int,
    cluster_size: usize,
    method: Compression,
    c: Cluster,
)
    requires
        0 <= at < input.len(),
        compression::is_block_size(block_size),
        compression::is_cluster_size(cluster_size as int, block_size),
        compression::is_cluster(lz4, input, at, block_size, cluster_size, method, c),
        undoes(unpack, lz4),
    ensures
        at + c.consumed <= input.len(),
        read_cluster(c, unpack) == input.subrange(at, at + c.consumed),
{
    let source = compression::window(input, at, compression::source_limit(cluster_size as int));
    indexes::lemma_cluster_bounds(lz4, input, at, block_size, cluster_size, method, c);
    if method != Compression::Off && source.len() > block_size {
        let (consumed, packed) = choose|consumed: int, packed: Seq<u8>|
            {
                &&& compression::is_answer(source, cluster_size as int, consumed, packed)
                &&& compression::answers(lz4, source, cluster_size, consumed, packed)
                &&& c == #[trigger] compression::cluster_of(source, consumed, packed, block_size)
            };
        compression::lemma_in_blocks(packed.len() as int, block_size);
        if !c.raw {
            lemma_unpadded(
                compression::in_blocks(packed.len() as int, block_size) - packed.len(),
                packed,
            );
        }
    }
    if c.raw {
        assert(c == compression::plain_cluster(source, block_size));
        assert(c.stored.take(c.consumed) =~= source.take(c.consumed));
    }
    assert(source.take(c.consumed) =~= input.subrange(at, at + c.consumed));
}

proof fn lemma_clusters_read_back<F: Fn(&[u8], usize) -> Option<(usize, Vec<u8>)>>(
    lz4: F,
    unpack: spec_fn(Seq<u8>) -> Seq<u8>,
    input: Seq<u8>,
    block_size: int,
    cluster_size: usize,
    method: Compression,
    clusters: Seq<Cluster>,
    n: int,
)
    requires
        compression::is_block_size(block_size),
        compression::is_cluster_size(cluster_size as int, block_size),
        compression::is_run(lz4, input, block_size, cluster_size, method, clusters),
        undoes(unpack, lz4),
        0 <= n <= clusters.len(),
    ensures
        0 <= compression::consumed_by(clusters, n) <= input.len(),
        read_clusters(clusters, unpack, n) == input.take(compression::consumed_by(clusters, n)),
    decreases n,
{
    if n > 0 {
        lemma_clusters_read_back(
            lz4,
            unpack,
            input,
            block_size,
            cluster_size,
            method,
            clusters,
            n - 1,
        );
        let at = compression::consumed_by(clusters, n - 1);
        let c = clusters[n - 1];
        assert(compression::follows(
            lz4,
            input,
            block_size,
            cluster_size,
            method,
            clusters,
            n - 1,
        ));
        reveal(compression::follows);
        indexes::lemma_cluster_bounds(lz4, input, at, block_size, cluster_size, method, c);
        lemma_cluster_reads_back(
            lz4,
            unpack,
            input,
            at,
            block_size,
            cluster_size,
            method,
            c,
        );
        assert(input.take(at) + input.subrange(at, at + c.consumed) =~= input.take(
            at + c.consumed,
        ));
    } else {
        assert(input.take(0) =~= Seq::<u8>::empty());
    }
}

/// The clusters of a compressed file read back as the file, with whatever undoes
/// the compressor.
pub proof fn law_compressed_data_reads_back<F: Fn(&[u8], usize) -> Option<(usize, Vec<u8>)>>(
    lz4: F,
    unpack: spec_fn(Seq<u8>) -> Seq<u8>,
    input: Seq<u8>,
    start: int,
    block_size: int,
    cluster_size: usize,
    method: Compression,
    clusters: Seq<Cluster>,
    file: CompressedFile,
    stored: Seq<u8>,
)
    requires
        compression::is_block_size(block_size),
        compression::is_cluster_size(cluster_size as int, block_size),
        compression::is_compressed(
            lz4,
            input,
            start,
            block_size,
            cluster_size,
            method,
            clusters,
            file,
            stored,
        ),
        undoes(unpack, lz4),
    ensures
        read_clusters(clusters, unpack, clusters.len() as int) == input,
{
    let n = clusters.len() as int;
    lemma_clusters_read_back(
        lz4,
        unpack,
        input,
        block_size,
        cluster_size,
        method,
        clusters,
        n,
    );
    assert(input.take(input.len() as int) =~= input);
}

/// The index of the block in which a cluster starts, as it is stored.
pub open spec fn head_record(
    clusters: Seq<Cluster>,
    start: int,
    block_size: int,
    j: int,
) -> Seq<u8> {
    compression::index_record(
        if clusters[j].raw {
            Z_EROFS_LCLUSTER_TYPE_PLAIN as int
        } else {
            Z_EROFS_LCLUSTER_TYPE_HEAD1 as int
        },
        compression::consumed_by(clusters, j) % block_size,
        bytes::bytes32((start + compression::stored_by(clusters, j).len()) / block_size),
    )
}

/// The indexes of fewer clusters start those of more.
pub(crate) proof fn lemma_indexes_grow(
    clusters: Seq<Cluster>,
    start: int,
    block_size: int,
    big: bool,
    n: int,
    m: int,
)
    requires
        0 <= n <= m,
    ensures
        ({
            let a = compression::indexes_of(clusters, start, block_size, big, n).bytes;
            let b = compression::indexes_of(clusters, start, block_size, big, m).bytes;
            a.len() <= b.len() && b.take(a.len() as int) == a
        }),
    decreases m,
{
    let a = compression::indexes_of(clusters, start, block_size, big, n).bytes;
    let b = compression::indexes_of(clusters, start, block_size, big, m).bytes;
    if n < m {
        lemma_indexes_grow(clusters, start, block_size, big, n, m - 1);
        let c = compression::indexes_of(clusters, start, block_size, big, m - 1).bytes;
        assert(b.take(c.len() as int) =~= c);
        assert(b.take(a.len() as int) =~= c.take(a.len() as int));
    } else {
        assert(b.take(a.len() as int) =~= a);
    }
}

/// What is stored of fewer clusters starts what is stored of more.
pub(crate) proof fn lemma_stored_grows(clusters: Seq<Cluster>, n: int, m: int)
    requires
        0 <= n <= m,
    ensures
        ({
            let a = compression::stored_by(clusters, n);
            let b = compression::stored_by(clusters, m);
            a.len() <= b.len() && b.take(a.len() as int) == a
        }),
    decreases m,
{
    let a = compression::stored_by(clusters, n);
    let b = compression::stored_by(clusters, m);
    if n < m {
        lemma_stored_grows(clusters, n, m - 1);
        let c = compression::stored_by(clusters, m - 1);
        assert(b.take(c.len() as int) =~= c);
        assert(b.take(a.len() as int) =~= c.take(a.len() as int));
    } else {
        assert(b.take(a.len() as int) =~= a);
    }
}

pub(crate) proof fn lemma_first_record(
    kind: int,
    offset: int,
    block: int,
    forward: int,
    blocks: int,
    big: bool,
    count: int,
)
    requires
        count >= 1,
    ensures
        compression::cluster_records(kind, offset, block, forward, blocks, big, count).len() >= 8,
        compression::cluster_records(kind, offset, block, forward, blocks, big, count).take(8)
            == compression::index_record(kind, offset, bytes::bytes32(block)),
    decreases count,
{
    let all = compression::cluster_records(kind, offset, block, forward, blocks, big, count);
    if count > 1 {
        lemma_first_record(kind, offset, block, forward, blocks, big, count - 1);
        let before = compression::cluster_records(
            kind,
            offset,
            block,
            forward,
            blocks,
            big,
            count - 1,
        );
        assert(all.take(8) =~= before.take(8));
    } else {
        assert(all.take(8) =~= all);
    }
}

/// The index of the block of the file in which a cluster starts tells how far
/// into the block that is, whether the cluster is compressed, and the block of
/// the image from which on it is stored.
pub proof fn law_indexes_find_clusters<F: Fn(&[u8], usize) -> Option<(usize, Vec<u8>)>>(
    lz4: F,
    input: Seq<u8>,
    start: int,
    block_size: int,
    cluster_size: usize,
    method: Compression,
    clusters: Seq<Cluster>,
    file: CompressedFile,
    stored: Seq<u8>,
    j: int,
)
    requires
        compression::is_block_size(block_size),
        compression::is_cluster_size(cluster_size as int, block_size),
        compression::is_compressed(
            lz4,
            input,
            start,
            block_size,
            cluster_size,
            method,
            clusters,
            file,
            stored,
        ),
        0 <= j < clusters.len(),
    ensures
        bytes::stands_at(
            file.metadata@,
            16 + 8 * (compression::consumed_by(clusters, j) / block_size),
            head_record(clusters, start, block_size, j),
        ),
        bytes::stands_at(
            stored,
            compression::stored_by(clusters, j).len() as int,
            clusters[j].stored,
        ),
{
    let n = clusters.len() as int;
    let big = cluster_size > block_size;
    let at = compression::consumed_by(clusters, j);
    let c = clusters[j];
    let before = compression::indexes_of(clusters, start, block_size, big, j);
    let next = compression::indexes_of(clusters, start, block_size, big, j + 1);
    let all = compression::indexes_of(clusters, start, block_size, big, n);
    indexes::lemma_index_count(lz4, input, start, block_size, cluster_size, method, clusters, j);
    assert(compression::follows(lz4, input, block_size, cluster_size, method, clusters, j));
    reveal(compression::follows);
    indexes::lemma_cluster_bounds(lz4, input, at, block_size, cluster_size, method, c);
    let k = (before.bytes.len() - 16) / 8;
    vstd::arithmetic::div_mod::lemma_fundamental_div_mod_converse(
        at,
        block_size,
        k,
        before.offset,
    );
    let place = before.bytes.len() as int;
    assert(place == 16 + 8 * (at / block_size));
    let record = head_record(clusters, start, block_size, j);
    let end = before.offset + c.consumed;
    let forward = end / block_size;
    assert(forward >= 0) by (nonlinear_arith)
        requires
            forward == end / block_size,
            end >= 0,
            block_size > 0,
    ;
    let block = (start + compression::stored_by(clusters, j).len()) / block_size;
    let kind = if c.raw {
        Z_EROFS_LCLUSTER_TYPE_PLAIN as int
    } else {
        Z_EROFS_LCLUSTER_TYPE_HEAD1 as int
    };
    assert(record.len() == 8);
    if forward > 0 {
        let blocks = c.stored.len() as int / block_size;
        lemma_first_record(kind, before.offset, block, forward, blocks, big, forward);
        let records = compression::cluster_records(
            kind,
            before.offset,
            block,
            forward,
            blocks,
            big,
            forward,
        );
        assert(next.bytes == before.bytes + records);
        assert(next.bytes.subrange(place, place + 8) =~= records.take(8));
    } else {
        assert(next.bytes.subrange(place, place + 8) =~= record);
    }
    lemma_indexes_grow(clusters, start, block_size, big, j + 1, n);
    let metadata = file.metadata@;
    assert(metadata.subrange(place, place + 8) =~= all.bytes.take(
        next.bytes.len() as int,
    ).subrange(place, place + 8));
    lemma_stored_grows(clusters, j + 1, n);
    let from = compression::stored_by(clusters, j).len() as int;
    let upto = compression::stored_by(clusters, j + 1);
    assert(upto == compression::stored_by(clusters, j) + c.stored);
    assert(stored.subrange(from, from + c.stored.len()) =~= stored.take(
        upto.len() as int,
    ).subrange(from, from + c.stored.len()));
    assert(upto.subrange(from, from + c.stored.len()) =~= c.stored);
}

// ---------------------------------------------------------------------------
// Attributes
// ---------------------------------------------------------------------------

/// The prefix of the names in a namespace.
pub open spec fn prefix_text(index: u8) -> Seq<char> {
    if index == EROFS_XATTR_INDEX_USER {
        "user."@
    } else if index == EROFS_XATTR_INDEX_POSIX_ACL_ACCESS {
        "system.posix_acl_access"@
    } else if index == EROFS_XATTR_INDEX_POSIX_ACL_DEFAULT {
        "system.posix_acl_default"@
    } else if index == EROFS_XATTR_INDEX_TRUSTED {
        "trusted."@
    } else if index == EROFS_XATTR_INDEX_SECURITY {
        "security."@
    } else {
        ""@
    }
}

/// How many bytes the attribute at `at` takes.
pub open spec fn attribute_size(s: Seq<u8>, at: int) -> int {
    let length = 4 + s[at] + bytes::le16(s, at + 2);
    length + (4 - length % 4) % 4
}

/// The name and the value of the attribute at `at`.
pub open spec fn read_attribute(s: Seq<u8>, at: int) -> (Seq<char>, Seq<u8>) {
    let name = at + 4;
    let value = name + s[at];
    (
        prefix_text(s[at + 1]) + vstd::utf8::decode_utf8(s.subrange(name, value)),
        s.subrange(value, value + bytes::le16(s, at + 2)),
    )
}

/// The attributes that stand one behind another from `at` on.
pub open spec fn read_list(s: Seq<u8>, at: int) -> Seq<(Seq<char>, Seq<u8>)>
    decreases s.len() - at,
{
    if at < 0 || at + 4 > s.len() || at + attribute_size(s, at) > s.len() {
        seq![]
    } else {
        seq![read_attribute(s, at)] + read_list(s, at + attribute_size(s, at))
    }
}

/// The attributes that `count` references find in the shared table.
pub open spec fn read_shared(s: Seq<u8>, table: Seq<u8>, count: int) -> Seq<
    (Seq<char>, Seq<u8>),
> {
    Seq::new(count as nat, |k: int| read_attribute(table, 4 * bytes::le32(s, 12 + 4 * k)))
}

/// The attributes of an inode.
pub open spec fn read_attributes(s: Seq<u8>, table: Seq<u8>) -> Seq<(Seq<char>, Seq<u8>)> {
    if s.len() == 0 {
        seq![]
    } else {
        read_shared(s, table, s[4] as int) + read_list(s, 12 + 4 * s[4])
    }
}

/// An attribute that was stored reads back.
pub proof fn law_stored_attribute_reads_back(
    s: Seq<u8>,
    at: int,
    name: Seq<char>,
    value: Seq<u8>,
)
    requires
        xattrs::stored(name, value) is Ok,
        bytes::stands_at(s, at, xattrs::stored(name, value)->Ok_0),
    ensures
        read_attribute(s, at) == (name, value),
        attribute_size(s, at) == xattrs::stored(name, value)->Ok_0.len(),
        attribute_size(s, at) >= 4,
        xattrs::stored(name, value)->Ok_0.len() % 4 == 0,
{
    let (index, prefix) = xattrs::namespace(name)->0;
    let suffix = xattrs::suffix_bytes(name, prefix);
    let data = xattrs::stored(name, value)->Ok_0;
    let head = seq![suffix.len() as u8, index] + bytes::bytes16(value.len() as int);
    assert(data.take(4) =~= head);
    bytes::lemma_bytes16(value.len() as int);
    let part = s.subrange(at, at + data.len());
    assert(part == data);
    assert(forall|i: int| 0 <= i < data.len() ==> s[at + i] == #[trigger] part[i]);
    assert(s[at] == data[0] && s[at + 1] == data[1] && s[at + 2] == data[2] && s[at + 3]
        == data[3]);
    assert(data[2] == bytes::bytes16(value.len() as int)[0]);
    assert(data[3] == bytes::bytes16(value.len() as int)[1]);
    assert(bytes::le16(s, at + 2) == value.len());
    let middle = at + 4 + suffix.len();
    assert(s.subrange(at + 4, middle) =~= suffix) by {
        assert(forall|i: int|
            0 <= i < suffix.len() ==> s[at + 4 + i] == part[4 + i] && part[4 + i] == #[trigger] suffix[i]);
    }
    assert(s.subrange(middle, middle + value.len()) =~= value) by {
        let from = 4 + suffix.len();
        assert(forall|i: int|
            0 <= i < value.len() ==> s[at + from + i] == part[from + i] && part[from + i]
                == #[trigger] value[i]);
    }
    vstd::utf8::encode_utf8_decode_utf8(name.skip(prefix));
    assert(name.take(prefix) =~= prefix_text(index));
    assert(prefix_text(index) + name.skip(prefix) =~= name);
}

/// Attributes as they stand one behind another.
spec fn all_stored(list: Seq<(Seq<char>, Seq<u8>)>) -> Seq<u8>
    decreases list.len(),
{
    if list.len() == 0 {
        seq![]
    } else {
        all_stored(list.drop_last()) + xattrs::stored(list.last().0, list.last().1)->Ok_0
    }
}

/// Reading what follows the first `m` attributes gives the others.
proof fn lemma_list_reads_back(
    s: Seq<u8>,
    at: int,
    list: Seq<(Seq<char>, Seq<u8>)>,
    m: int,
)
    requires
        0 <= at,
        s.len() == at + all_stored(list).len(),
        s.skip(at) == all_stored(list),
        forall|i: int|
            0 <= i < list.len() ==> xattrs::stored((#[trigger] list[i]).0, list[i].1) is Ok,
        0 <= m <= list.len(),
    ensures
        read_list(s, at + all_stored(list.take(m)).len()) == list.skip(m),
    decreases list.len() - m,
{
    let place = at + all_stored(list.take(m)).len();
    lemma_prefix_stored(list, m);
    if m == list.len() {
        assert(list.take(m) =~= list);
        assert(list.skip(m) =~= seq![]);
    } else {
        let (name, value) = list[m];
        let data = xattrs::stored(name, value)->Ok_0;
        lemma_prefix_stored(list, m + 1);
        assert(list.take(m + 1).drop_last() =~= list.take(m));
        assert(all_stored(list.take(m + 1)) == all_stored(list.take(m)) + data);
        let whole = all_stored(list);
        let first = all_stored(list.take(m));
        let next = all_stored(list.take(m + 1));
        assert(s.subrange(place, place + data.len()) =~= data) by {
            assert(forall|i: int|
                0 <= i < data.len() ==> s[place + i] == s.skip(at)[first.len() + i]
                    && whole.take(next.len() as int)[first.len() + i] == #[trigger] data[i]);
        }
        law_stored_attribute_reads_back(s, place, name, value);
        lemma_list_reads_back(s, at, list, m + 1);
        assert(list.skip(m) =~= seq![(name, value)] + list.skip(m + 1));
    }
}

/// The first attributes come first.
proof fn lemma_prefix_stored(list: Seq<(Seq<char>, Seq<u8>)>, m: int)
    requires
        0 <= m <= list.len(),
    ensures
        all_stored(list.take(m)).len() <= all_stored(list).len(),
        all_stored(list).take(all_stored(list.take(m)).len() as int) == all_stored(list.take(m)),
    decreases list.len(),
{
    let first = all_stored(list.take(m));
    let whole = all_stored(list);
    if m == list.len() {
        assert(list.take(m) =~= list);
        assert(whole.take(whole.len() as int) =~= whole);
    } else {
        lemma_prefix_stored(list.drop_last(), m);
        assert(list.drop_last().take(m) =~= list.take(m));
        assert(whole.take(first.len() as int) =~= all_stored(list.drop_last()).take(
            first.len() as int,
        ));
    }
}

/// The first `n` attributes of an inode: those that refer to the shared table,
/// and the others.
spec fn split(
    list: Seq<(Seq<char>, Seq<u8>)>,
    shared: Seq<(Seq<char>, Seq<u8>, u32)>,
    n: int,
) -> (Seq<(Seq<char>, Seq<u8>)>, Seq<(Seq<char>, Seq<u8>)>)
    decreases n,
{
    if n <= 0 {
        (seq![], seq![])
    } else {
        let (references, own) = split(list, shared, n - 1);
        let (name, value) = list[n - 1];
        match xattrs::shared_offset(shared, name, value, 0) {
            Some(offset) if references.len() < 255 => (references.push(list[n - 1]), own),
            _ => (references, own.push(list[n - 1])),
        }
    }
}

/// True when the references are those of the attributes.
spec fn are_references(
    ids: Seq<u8>,
    shared: Seq<(Seq<char>, Seq<u8>, u32)>,
    list: Seq<(Seq<char>, Seq<u8>)>,
) -> bool {
    &&& ids.len() == 4 * list.len()
    &&& forall|k: int|
        0 <= k < list.len() ==> #[trigger] xattrs::shared_offset(
            shared,
            list[k].0,
            list[k].1,
            0,
        ) == Some(bytes::le32(ids, 4 * k) as u32)
}

proof fn lemma_parts_split(
    list: Seq<(Seq<char>, Seq<u8>)>,
    shared: Seq<(Seq<char>, Seq<u8>, u32)>,
    n: int,
)
    requires
        0 <= n <= list.len(),
        xattrs::parts_of(list, shared, n) is Ok,
    ensures
        ({
            let parts = xattrs::parts_of(list, shared, n)->Ok_0;
            let (references, own) = split(list, shared, n);
            &&& parts.count == references.len() <= 255
            &&& are_references(parts.ids, shared, references)
            &&& parts.inline == all_stored(own)
            &&& forall|i: int|
                0 <= i < own.len() ==> xattrs::stored((#[trigger] own[i]).0, own[i].1) is Ok
            &&& (references + own).to_multiset() == list.take(n).to_multiset()
        }),
    decreases n,
{
    broadcast use vstd::seq_lib::group_to_multiset_ensures;

    if n > 0 {
        lemma_parts_split(list, shared, n - 1);
        let before = xattrs::parts_of(list, shared, n - 1)->Ok_0;
        let parts = xattrs::parts_of(list, shared, n)->Ok_0;
        let (references, own) = split(list, shared, n - 1);
        let a = list[n - 1];
        assert(list.take(n) =~= list.take(n - 1).push(a));
        vstd::seq_lib::lemma_multiset_commutative(references, own);
        match xattrs::shared_offset(shared, a.0, a.1, 0) {
            Some(offset) if references.len() < 255 => {
                bytes::lemma_bytes32(offset as int);
                let ids = before.ids + bytes::bytes32(offset as int);
                let longer = references.push(a);
                assert forall|k: int| 0 <= k < longer.len() implies #[trigger] xattrs::shared_offset(
                    shared,
                    longer[k].0,
                    longer[k].1,
                    0,
                ) == Some(bytes::le32(ids, 4 * k) as u32) by {
                    if k < references.len() {
                        assert(xattrs::shared_offset(
                            shared,
                            references[k].0,
                            references[k].1,
                            0,
                        ) == Some(bytes::le32(before.ids, 4 * k) as u32));
                        assert(bytes::le32(ids, 4 * k) == bytes::le32(before.ids, 4 * k));
                    } else {
                        assert(bytes::le32(ids, 4 * k) == bytes::le32(
                            bytes::bytes32(offset as int),
                            0,
                        ));
                    }
                }
                vstd::seq_lib::lemma_multiset_commutative(longer, own);
                assert((longer + own).to_multiset() =~= (references + own).to_multiset().insert(a));
            },
            _ => {
                let longer = own.push(a);
                assert(longer.drop_last() =~= own);
                assert((references + longer) =~= (references + own).push(a));
            },
        }
    } else {
        assert(list.take(0) =~= seq![]);
        assert(Seq::<(Seq<char>, Seq<u8>)>::empty() + Seq::empty() =~= Seq::empty());
    }
}

/// Where the shared table says that an attribute stands, it stands.
proof fn lemma_shared_found(
    often: Seq<(Seq<char>, Seq<u8>)>,
    shared: Seq<(Seq<char>, Seq<u8>, u32)>,
    table: Seq<u8>,
    name: Seq<char>,
    value: Seq<u8>,
    from: int,
)
    requires
        xattrs::is_table(often, shared),
        xattrs::table_bytes(often, often.len() as int) == Ok::<Seq<u8>, XattrError>(table),
        0 <= from,
        xattrs::shared_offset(shared, name, value, from) is Some,
    ensures
        read_attribute(
            table,
            4 * xattrs::shared_offset(shared, name, value, from)->0,
        ) == (name, value),
    decreases shared.len() - from,
{
    if shared[from].0 == name && shared[from].1 == value {
        lemma_table_prefix(often, from, often.len() as int);
        lemma_table_prefix(often, from + 1, often.len() as int);
        let before = xattrs::table_bytes(often, from)->Ok_0;
        let data = xattrs::stored(name, value)->Ok_0;
        let next = xattrs::table_bytes(often, from + 1)->Ok_0;
        assert(next == before + data);
        let place = before.len() as int;
        assert(table.subrange(place, place + data.len()) =~= data) by {
            assert(forall|i: int|
                0 <= i < data.len() ==> table.take(next.len() as int)[place + i]
                    == #[trigger] data[i]);
        }
        law_stored_attribute_reads_back(table, place, name, value);
    } else {
        lemma_shared_found(often, shared, table, name, value, from + 1);
    }
}

/// A shared table starts with that of its first attributes, in units of four.
#[verifier::rlimit(50)]
#[verifier::spinoff_prover]
proof fn lemma_table_prefix(often: Seq<(Seq<char>, Seq<u8>)>, n: int, m: int)
    requires
        0 <= n <= m <= often.len(),
        xattrs::table_bytes(often, m) is Ok,
    ensures
        xattrs::table_bytes(often, n) is Ok,
        ({
            let a = xattrs::table_bytes(often, n)->Ok_0;
            let b = xattrs::table_bytes(often, m)->Ok_0;
            &&& a.len() <= b.len()
            &&& b.take(a.len() as int) == a
            &&& a.len() % 4 == 0
            &&& b.len() % 4 == 0
        }),
    decreases m,
{
    if m > 0 {
        lemma_table_prefix(
            often,
            if n < m {
                n
            } else {
                m - 1
            },
            m - 1,
        );
        let last = often[m - 1];
        let data = xattrs::stored(last.0, last.1)->Ok_0;
        assert(data.subrange(0, data.len() as int) =~= data);
        law_stored_attribute_reads_back(data, 0, last.0, last.1);
        let a = xattrs::table_bytes(often, n)->Ok_0;
        let b = xattrs::table_bytes(often, m)->Ok_0;
        let c = xattrs::table_bytes(often, m - 1)->Ok_0;
        if n < m {
            assert(b.take(a.len() as int) =~= c.take(a.len() as int));
        } else {
            assert(b.take(a.len() as int) =~= a);
        }
    }
}

/// The attributes of an inode read back, from the inode and the shared table:
/// each of them, and no others.
pub proof fn law_attributes_read_back(
    lists: Seq<Seq<(Seq<char>, Seq<u8>)>>,
    tolerance: int,
    shared: Seq<(Seq<char>, Seq<u8>, u32)>,
    table: Seq<u8>,
    list: Seq<(Seq<char>, Seq<u8>)>,
)
    requires
        xattrs::shares(lists, tolerance, shared, table),
        xattrs::encoded(list, shared) is Ok,
    ensures
        read_attributes(xattrs::encoded(list, shared)->Ok_0, table).to_multiset()
            == list.to_multiset(),
{
    let data = xattrs::encoded(list, shared)->Ok_0;
    if list.len() == 0 {
        assert(list =~= seq![]);
    } else {
        let often = choose|often: Seq<(Seq<char>, Seq<u8>)>|
            {
                &&& #[trigger] xattrs::is_shared_list(lists, tolerance, often)
                &&& xattrs::is_table(often, shared)
                &&& xattrs::table_bytes(often, often.len() as int) == Ok::<Seq<u8>, XattrError>(
                    table,
                )
            };
        let n = list.len() as int;
        lemma_parts_split(list, shared, n);
        let parts: XattrParts = xattrs::parts_of(list, shared, n)->Ok_0;
        let (references, own) = split(list, shared, n);
        let count = references.len() as int;
        assert(data[4] == parts.count as u8);
        assert(data[4] == count);
        let at = 12 + 4 * count;
        assert(data.skip(at) =~= parts.inline);
        assert(own.take(0) =~= seq![]);
        lemma_list_reads_back(data, at, own, 0);
        assert(own.skip(0) =~= own);
        assert(read_list(data, at) == own);
        assert forall|k: int| 0 <= k < count implies read_attribute(
            table,
            4 * bytes::le32(data, 12 + 4 * k),
        ) == references[k] by {
            assert(xattrs::shared_offset(shared, references[k].0, references[k].1, 0) == Some(
                bytes::le32(parts.ids, 4 * k) as u32,
            ));
            assert(bytes::le32(data, 12 + 4 * k) == bytes::le32(parts.ids, 4 * k));
            lemma_shared_found(
                often,
                shared,
                table,
                references[k].0,
                references[k].1,
                0,
            );
        }
        assert(read_shared(data, table, count) =~= references);
        assert(list.take(n) =~= list);
    }
}

} // verus!
