//! The compact form of cluster indexes, and moving indexes to other addresses.

use vstd::prelude::*;

use crate::bytes;
use crate::erofs::compression;
use crate::erofs::compression::{
    Cluster, CompressedFile, Compression, IndexState, Z_EROFS_LCLUSTER_TYPE_NONHEAD,
};

verus! {

/// Why indexes cannot be made compact or moved.
#[derive(Debug, Clone, Copy, PartialEq, Eq, Structural)]
pub enum IndexError {
    AddressOverflow,
    NotContiguous,
    OffsetOverflow,
    InvalidLength,
}

// ---------------------------------------------------------------------------
// Packs
// ---------------------------------------------------------------------------

/// How many indexes stand before the first pack of sixteen, so that it is
/// aligned to 32 bytes behind an inode header of the given size.
pub open spec fn initial_count(total: int, header_size: int) -> int {
    let map_start = (header_size + 7) / 8 * 8 + 8;
    let initial = (32 - map_start % 32) / 4 % 8;
    if initial > total {
        0
    } else {
        initial
    }
}

/// How many indexes the pack that starts with index `index` holds.
#[verifier::opaque]
pub open spec fn pack_count(total: int, header_size: int, index: int) -> int {
    let initial = initial_count(total, header_size);
    let compact = (total - initial) / 16 * 16;
    if initial <= index < initial + compact {
        16
    } else {
        2
    }
}

/// A pack holds two indexes or sixteen.
pub proof fn lemma_pack_count(total: int, header_size: int, index: int)
    ensures
        pack_count(total, header_size, index) == 2 || pack_count(total, header_size, index) == 16,
{
    reveal(pack_count);
}

/// How many bytes a pack of `count` indexes takes.
pub open spec fn pack_size(count: int) -> int {
    if count == 16 {
        32
    } else {
        8
    }
}

/// How many bytes the packs from `index` on take.
pub open spec fn packs_len(total: int, header_size: int, index: int) -> int
    decreases
            if index < total {
                total - index
            } else {
                0
            },
{
    if index >= total {
        0
    } else {
        let count = pack_count(total, header_size, index);
        proof {
            lemma_pack_count(total, header_size, index);
        }
        pack_size(count) + packs_len(total, header_size, index + count)
    }
}

/// Packs take some bytes, or none, and at most 32 for each index.
pub proof fn lemma_packs_len(total: int, header_size: int, index: int)
    ensures
        packs_len(total, header_size, index) >= 0,
        packs_len(total, header_size, index) <= if index < total {
            32 * (total - index)
        } else {
            0
        },
    decreases
            if index < total {
                total - index
            } else {
                0
            },
{
    if index < total {
        lemma_pack_count(total, header_size, index);
        lemma_packs_len(total, header_size, index + pack_count(total, header_size, index));
    }
}

fn count_initial(total: usize, header_size: usize) -> (initial: usize)
    requires
        header_size + 16 <= usize::MAX,
    ensures
        initial == initial_count(total as int, header_size as int),
        initial <= total,
        initial <= 6,
{
    let map_start: usize = (header_size + 7) / 8 * 8 + 8;
    let initial: usize = (32 - map_start % 32) / 4 % 8;
    if initial > total {
        0
    } else {
        initial
    }
}

fn count_in_pack(total: usize, header_size: usize, initial: usize, index: usize) -> (count: usize)
    requires
        initial == initial_count(total as int, header_size as int),
        initial <= total,
    ensures
        count == pack_count(total as int, header_size as int, index as int),
        count == 2 || count == 16,
{
    proof {
        reveal(pack_count);
    }
    if initial <= index && index - initial < (total - initial) / 16 * 16 {
        16
    } else {
        2
    }
}

// ---------------------------------------------------------------------------
// Compact indexes
// ---------------------------------------------------------------------------

/// Index `i` of full indexes, or an empty one behind the last.
pub open spec fn record(indexes: Seq<u8>, i: int) -> Seq<u8> {
    if 8 * (i + 1) <= indexes.len() {
        indexes.subrange(8 * i, 8 * i + 8)
    } else {
        bytes::filled(0, 8)
    }
}

/// What the kind of an index counts in its value, which the offset stays below:
/// the largest power of two that divides the block size, and 0x1000 at least.
pub open spec fn kind_unit(block_size: int) -> int
    decreases block_size,
{
    if block_size <= 0 || block_size % 0x2000 != 0 {
        0x1000
    } else {
        2 * kind_unit(block_size / 2)
    }
}

fn find_kind_unit(block_size: u32) -> (unit: u32)
    requires
        block_size > 0,
    ensures
        unit == kind_unit(block_size as int),
{
    let mut rest: u32 = block_size;
    let mut unit: u32 = 0x1000;
    while rest % 0x2000 == 0
        invariant
            0 < rest,
            unit >= 0x1000,
            rest as int * unit as int == block_size as int * 0x1000,
            unit as int * kind_unit(rest as int) == 0x1000 * kind_unit(block_size as int),
        decreases rest,
    {
        let half: u32 = rest / 2;
        proof {
            let u = unit as int;
            let k = kind_unit(half as int);
            assert(u < 0x8000_0000) by (nonlinear_arith)
                requires
                    rest as int * u == block_size as int * 0x1000,
                    rest >= 0x2000,
                    block_size <= 0xffff_ffff,
                    u >= 0x1000,
            ;
            assert(half as int * (2 * u) == rest as int * u) by (nonlinear_arith)
                requires
                    rest == 2 * half,
            ;
            assert((2 * u) * k == u * (2 * k)) by (nonlinear_arith);
        }
        unit = 2 * unit;
        rest = half;
    }
    unit
}

/// What is known while the indexes of a pack are gone through.
#[verifier::ext_equal]
pub struct SlotState {
    /// The block of the last cluster that started.
    pub block: int,
    /// True when the next cluster that starts lies in the block after that.
    pub pending: bool,
    /// The block that the pack states.
    pub base: int,
    /// True while the first cluster that starts in the pack sets that block.
    pub open_base: bool,
    /// The values of the indexes so far.
    pub values: Seq<int>,
    /// What the kind of an index counts in its value.
    pub unit: int,
}

/// What one more index makes of the state: index number `slot` of a pack of
/// `count`; `last` says that no index of the file follows it.
pub open spec fn with_slot(s: SlotState, r: Seq<u8>, ends_pack: bool, last: bool) -> Result<
    SlotState,
    IndexError,
> {
    let kind = bytes::le16(r, 0) % 0x100;
    if kind == Z_EROFS_LCLUSTER_TYPE_NONHEAD {
        let back = bytes::le16(r, 4);
        if back / 0x800 % 2 == 1 {
            if s.block + (back - 0x800) > 0xffff_ffff {
                Err(IndexError::AddressOverflow)
            } else if back >= s.unit {
                Err(IndexError::OffsetOverflow)
            } else {
                Ok(
                    SlotState {
                        block: s.block + (back - 0x800),
                        pending: false,
                        values: s.values.push(kind * s.unit + back),
                        ..s
                    },
                )
            }
        } else {
            let forward = bytes::le16(r, 6);
            let offset = if !ends_pack {
                back
            } else if forward < 0x7ff {
                forward
            } else {
                0x7ff
            };
            if offset >= s.unit {
                Err(IndexError::OffsetOverflow)
            } else {
                Ok(SlotState { values: s.values.push(kind * s.unit + offset), ..s })
            }
        }
    } else {
        let block = if s.pending {
            (s.block + 1) % 0x1_0000_0000
        } else {
            s.block
        };
        let stored = bytes::le32(r, 4);
        let offset = bytes::le16(r, 2);
        if !(stored == block || (stored == 0 && last)) {
            Err(IndexError::NotContiguous)
        } else if offset >= s.unit {
            Err(IndexError::OffsetOverflow)
        } else {
            Ok(
                SlotState {
                    block,
                    pending: true,
                    base: if s.pending && s.open_base {
                        block
                    } else {
                        s.base
                    },
                    open_base: false,
                    values: s.values.push(kind * s.unit + offset),
                    unit: s.unit,
                },
            )
        }
    }
}

/// The state after the first `n` indexes of the pack that starts with `index`.
pub open spec fn slots(
    indexes: Seq<u8>,
    total: int,
    index: int,
    count: int,
    start: SlotState,
    n: int,
) -> Result<SlotState, IndexError>
    decreases n,
{
    if n <= 0 {
        Ok(start)
    } else {
        match slots(indexes, total, index, count, start, n - 1) {
            Err(error) => Err(error),
            Ok(s) => with_slot(
                s,
                record(indexes, index + n - 1),
                n == count,
                index + n >= total,
            ),
        }
    }
}

/// Four values of 14 bits in seven bytes, the first in the lowest bits.
#[verifier::opaque]
pub open spec fn seven_bytes(a: int, b: int, c: int, d: int) -> Seq<u8> {
    bytes::bytes64(
        a % 0x4000 + 0x4000 * (b % 0x4000) + 0x1000_0000 * (c % 0x4000) + 0x400_0000_0000 * (d
            % 0x4000),
    ).take(7)
}

/// The bytes of a pack: its values, of 16 bits each in a pack of two and of 14
/// bits each in a pack of sixteen, and the block that it states.
pub open spec fn pack_bytes(values: Seq<int>, base: int) -> Seq<u8> {
    if values.len() == 16 {
        seven_bytes(values[0], values[1], values[2], values[3]) + seven_bytes(
            values[4],
            values[5],
            values[6],
            values[7],
        ) + seven_bytes(values[8], values[9], values[10], values[11]) + seven_bytes(
            values[12],
            values[13],
            values[14],
            values[15],
        ) + bytes::bytes32(base)
    } else {
        bytes::bytes16(values[0] % 0x1_0000) + bytes::bytes16(values[1] % 0x1_0000)
            + bytes::bytes32(base)
    }
}

/// The packs from `index` on.
pub open spec fn compact_from(
    indexes: Seq<u8>,
    total: int,
    header_size: int,
    big: bool,
    index: int,
    block: int,
    pending: bool,
    unit: int,
) -> Result<Seq<u8>, IndexError>
    decreases
            if index < total {
                total - index
            } else {
                0
            },
{
    if index >= total {
        Ok(seq![])
    } else {
        let count = pack_count(total, header_size, index);
        proof {
            lemma_pack_count(total, header_size, index);
        }
        let start = SlotState { block, pending, base: block, open_base: big, values: seq![], unit };
        match slots(indexes, total, index, count, start, count) {
            Err(error) => Err(error),
            Ok(s) => match compact_from(
                indexes,
                total,
                header_size,
                big,
                index + count,
                s.block,
                s.pending,
                unit,
            ) {
                Err(error) => Err(error),
                Ok(rest) => Ok(pack_bytes(s.values, s.base) + rest),
            },
        }
    }
}

/// True when full indexes are those of clusters of more than one block.
pub open spec fn is_big(metadata: Seq<u8>) -> bool {
    bytes::le16(metadata, 4) / 2 % 2 == 1
}

/// The compact form of full indexes, for a file system of the given block size.
pub open spec fn compacted(metadata: Seq<u8>, header_size: int, block_size: int) -> Result<
    Seq<u8>,
    IndexError,
> {
    let indexes = metadata.skip(16);
    let first = bytes::le32(indexes, 4);
    let big = is_big(metadata);
    match compact_from(
        indexes,
        indexes.len() as int / 8,
        header_size,
        big,
        0,
        if big {
            first
        } else if first == 0 {
            0xffff_ffff
        } else {
            first - 1
        },
        !big,
        kind_unit(block_size),
    ) {
        Err(error) => Err(error),
        Ok(packs) => Ok(
            metadata.take(4) + bytes::bytes16(
                if big {
                    7
                } else {
                    1
                },
            ) + metadata.subrange(6, 8) + packs,
        ),
    }
}

/// A slot of a pack, with machine integers.
struct Slots {
    block: u32,
    pending: bool,
    base: u32,
    open_base: bool,
    values: Vec<u64>,
    unit: u32,
}

impl Slots {
    spec fn state(&self) -> SlotState {
        SlotState {
            block: self.block as int,
            pending: self.pending,
            base: self.base as int,
            open_base: self.open_base,
            values: self.values@.map_values(|v: u64| v as int),
            unit: self.unit as int,
        }
    }

    /// Adds the value of an index of the given kind.
    fn add_value(&mut self, kind: u32, offset: u32)
        requires
            kind < 0x100,
            offset < 0x1_0000,
        ensures
            final(self).state() == (SlotState {
                values: old(self).state().values.push(kind * old(self).unit + offset),
                ..old(self).state()
            }),
            final(self).values@.len() == old(self).values@.len() + 1,
    {
        let ghost unit = self.unit as int;
        assert(0 <= kind * unit < 0x100_0000_0000) by (nonlinear_arith)
            requires
                0 <= kind < 0x100,
                0 <= unit < 0x1_0000_0000,
        ;
        let value: u64 = kind as u64 * self.unit as u64 + offset as u64;
        self.values.push(value);
        assert(self.state().values =~= old(self).state().values.push(kind * old(self).unit + offset));
    }

    /// Adds the index `r`, eight bytes of full indexes.
    fn add_slot(&mut self, r: &[u8], ends_pack: bool, last: bool) -> (added: Result<(), IndexError>)
        requires
            r@.len() == 8,
        ensures
            match added {
                Ok(()) => with_slot(old(self).state(), r@, ends_pack, last) == Ok::<
                    SlotState,
                    IndexError,
                >(final(self).state()) && final(self).values@.len() == old(self).values@.len() + 1,
                Err(error) => with_slot(old(self).state(), r@, ends_pack, last) == Err::<
                    SlotState,
                    IndexError,
                >(error),
            },
    {
        let kind: u32 = (bytes::read_u16(r, 0) % 0x100) as u32;
        if kind == Z_EROFS_LCLUSTER_TYPE_NONHEAD as u32 {
            let back: u32 = bytes::read_u16(r, 4) as u32;
            if back / 0x800 % 2 == 1 {
                let count: u32 = back - 0x800;
                if count > 0xffff_ffff - self.block {
                    return Err(IndexError::AddressOverflow);
                }
                if back >= self.unit {
                    return Err(IndexError::OffsetOverflow);
                }
                self.block = self.block + count;
                self.pending = false;
                self.add_value(kind, back);
            } else {
                let forward: u32 = bytes::read_u16(r, 6) as u32;
                let offset: u32 = if !ends_pack {
                    back
                } else if forward < 0x7ff {
                    forward
                } else {
                    0x7ff
                };
                if offset >= self.unit {
                    return Err(IndexError::OffsetOverflow);
                }
                self.add_value(kind, offset);
            }
        } else {
            let block: u32 = if !self.pending {
                self.block
            } else if self.block == 0xffff_ffff {
                0
            } else {
                self.block + 1
            };
            let stored: u32 = bytes::read_u32(r, 4);
            let offset: u32 = bytes::read_u16(r, 2) as u32;
            if !(stored == block || (stored == 0 && last)) {
                return Err(IndexError::NotContiguous);
            }
            if offset >= self.unit {
                return Err(IndexError::OffsetOverflow);
            }
            if self.pending && self.open_base {
                self.base = block;
            }
            self.block = block;
            self.pending = true;
            self.open_base = false;
            self.add_value(kind, offset);
        }
        Ok(())
    }
}

fn push_seven(out: &mut Vec<u8>, a: u64, b: u64, c: u64, d: u64)
    ensures
        final(out)@ == old(out)@ + seven_bytes(a as int, b as int, c as int, d as int),
{
    let value: u64 = a % 0x4000 + 0x4000 * (b % 0x4000) + 0x1000_0000 * (c % 0x4000)
        + 0x400_0000_0000 * (d % 0x4000);
    proof {
        reveal(seven_bytes);
    }
    let mut eight: Vec<u8> = Vec::new();
    bytes::push_u64(&mut eight, value);
    assert(eight@ =~= bytes::bytes64(value as int));
    bytes::push_all(out, &eight.as_slice()[0..7]);
    assert(eight@.subrange(0, 7) =~= bytes::bytes64(value as int).take(7));
}

fn push_pack(out: &mut Vec<u8>, values: &Vec<u64>, base: u32)
    requires
        values@.len() == 16 || values@.len() == 2,
    ensures
        final(out)@ == old(out)@ + pack_bytes(
            values@.map_values(|v: u64| v as int),
            base as int,
        ),
{
    let ghost model = values@.map_values(|v: u64| v as int);
    if values.len() == 16 {
        push_seven(out, values[0], values[1], values[2], values[3]);
        push_seven(out, values[4], values[5], values[6], values[7]);
        push_seven(out, values[8], values[9], values[10], values[11]);
        push_seven(out, values[12], values[13], values[14], values[15]);
        bytes::push_u32(out, base);
        proof {
            let a = seven_bytes(model[0], model[1], model[2], model[3]);
            let b = seven_bytes(model[4], model[5], model[6], model[7]);
            let c = seven_bytes(model[8], model[9], model[10], model[11]);
            let d = seven_bytes(model[12], model[13], model[14], model[15]);
            let e = bytes::bytes32(base as int);
            lemma_five(old(out)@, a, b, c, d, e);
        }
    } else {
        bytes::push_u16(out, (values[0] % 0x1_0000) as u16);
        bytes::push_u16(out, (values[1] % 0x1_0000) as u16);
        bytes::push_u32(out, base);
        assert(out@ =~= old(out)@ + pack_bytes(model, base as int));
    }
}

proof fn lemma_five(
    front: Seq<u8>,
    a: Seq<u8>,
    b: Seq<u8>,
    c: Seq<u8>,
    d: Seq<u8>,
    e: Seq<u8>,
)
    ensures
        front + a + b + c + d + e == front + (a + b + c + d + e),
{
    assert(front + a + b + c + d + e =~= front + (a + b + c + d + e));
}

fn read_record(indexes: &[u8], i: usize) -> (r: Vec<u8>)
    requires
        8 * i + 16 <= usize::MAX,
    ensures
        r@ == record(indexes@, i as int),
        r@.len() == 8,
{
    if 8 * (i + 1) <= indexes.len() {
        bytes::copy_range(indexes, 8 * i, 8 * i + 8)
    } else {
        let mut zero: Vec<u8> = Vec::new();
        bytes::push_filled(&mut zero, 0, 8);
        assert(zero@ =~= bytes::filled(0, 8));
        zero
    }
}

#[verifier::rlimit(50)]
#[verifier::spinoff_prover]
fn fill_pack(
    indexes: &[u8],
    total: usize,
    index: usize,
    count: usize,
    block: u32,
    pending: bool,
    big: bool,
    unit: u32,
) -> (filled: Result<Slots, IndexError>)
    requires
        total == indexes@.len() / 8,
        index < total,
        count == 2 || count == 16,
        8 * total + 256 <= usize::MAX,
    ensures
        ({
            let start = SlotState {
                block: block as int,
                pending,
                base: block as int,
                open_base: big,
                values: seq![],
                unit: unit as int,
            };
            let model = slots(indexes@, total as int, index as int, count as int, start, count as int);
            match filled {
                Ok(s) => model == Ok::<SlotState, IndexError>(s.state()) && s.values@.len()
                    == count,
                Err(error) => model == Err::<SlotState, IndexError>(error),
            }
        }),
{
    let mut s = Slots { block, pending, base: block, open_base: big, values: Vec::new(), unit };
    let ghost start = SlotState {
        block: block as int,
        pending,
        base: block as int,
        open_base: big,
        values: seq![],
        unit: unit as int,
    };
    assert(s.state() =~= start);
    let mut n: usize = 0;
    while n < count
        invariant
            n <= count,
            count == 2 || count == 16,
            index < total,
            8 * total + 256 <= usize::MAX,
            start == (SlotState {
                block: block as int,
                pending,
                base: block as int,
                open_base: big,
                values: seq![],
                unit: unit as int,
            }),
            s.values@.len() == n,
            slots(indexes@, total as int, index as int, count as int, start, n as int) == Ok::<
                SlotState,
                IndexError,
            >(s.state()),
        decreases count - n,
    {
        let r = read_record(indexes, index + n);
        match s.add_slot(r.as_slice(), n + 1 == count, index + n + 1 >= total) {
            Ok(()) => {},
            Err(error) => {
                proof {
                    lemma_slots_fail(
                        indexes@,
                        total as int,
                        index as int,
                        count as int,
                        start,
                        n + 1,
                        count as int,
                    );
                }
                return Err(error);
            },
        }
        n += 1;
    }
    Ok(s)
}

/// Once an index is refused, no index after it mends that.
proof fn lemma_slots_fail(
    indexes: Seq<u8>,
    total: int,
    index: int,
    count: int,
    start: SlotState,
    n: int,
    m: int,
)
    requires
        0 <= n <= m,
        slots(indexes, total, index, count, start, n) is Err,
    ensures
        slots(indexes, total, index, count, start, m) == slots(
            indexes,
            total,
            index,
            count,
            start,
            n,
        ),
    decreases m,
{
    if n < m {
        lemma_slots_fail(indexes, total, index, count, start, n, m - 1);
    }
}

/// What compact packs give after those that are there.
spec fn after_packs(front: Seq<u8>, rest: Result<Seq<u8>, IndexError>) -> Result<
    Seq<u8>,
    IndexError,
> {
    match rest {
        Err(error) => Err(error),
        Ok(packs) => Ok(front + packs),
    }
}

fn build_packs(indexes: &[u8], header_size: usize, big: bool, first: u32, unit: u32) -> (packs: Result<
    Vec<u8>,
    IndexError,
>)
    requires
        header_size + 16 <= usize::MAX,
        indexes@.len() + 512 <= usize::MAX,
    ensures
        ({
            let model = compact_from(
                indexes@,
                indexes@.len() as int / 8,
                header_size as int,
                big,
                0,
                first as int,
                !big,
                unit as int,
            );
            match packs {
                Ok(found) => model == Ok::<Seq<u8>, IndexError>(found@),
                Err(error) => model == Err::<Seq<u8>, IndexError>(error),
            }
        }),
{
    let total: usize = indexes.len() / 8;
    let initial: usize = count_initial(total, header_size);
    let ghost model = compact_from(
        indexes@,
        total as int,
        header_size as int,
        big,
        0,
        first as int,
        !big,
        unit as int,
    );
    let mut out: Vec<u8> = Vec::new();
    let mut index: usize = 0;
    let mut block: u32 = first;
    let mut pending = !big;
    assert(after_packs(out@, model) == model) by {
        if model is Ok {
            assert(out@ + model->Ok_0 =~= model->Ok_0);
        }
    }
    while index < total
        invariant
            total == indexes@.len() / 8,
            indexes@.len() + 512 <= usize::MAX,
            model == compact_from(
                indexes@,
                total as int,
                header_size as int,
                big,
                0,
                first as int,
                !big,
                unit as int,
            ),
            initial == initial_count(total as int, header_size as int),
            initial <= total,
            index < total + 16,
            model == after_packs(
                out@,
                compact_from(
                    indexes@,
                    total as int,
                    header_size as int,
                    big,
                    index as int,
                    block as int,
                    pending,
                    unit as int,
                ),
            ),
        decreases
                if index < total {
                    total - index
                } else {
                    0
                },
    {
        let count: usize = count_in_pack(total, header_size, initial, index);
        match fill_pack(indexes, total, index, count, block, pending, big, unit) {
            Err(error) => {
                return Err(error);
            },
            Ok(s) => {
                let ghost before = out@;
                push_pack(&mut out, &s.values, s.base);
                proof {
                    let rest = compact_from(
                        indexes@,
                        total as int,
                        header_size as int,
                        big,
                        index + count,
                        s.block as int,
                        s.pending,
                        unit as int,
                    );
                    if rest is Ok {
                        assert(before + (pack_bytes(s.state().values, s.state().base) + rest->Ok_0)
                            =~= out@ + rest->Ok_0);
                    }
                }
                block = s.block;
                pending = s.pending;
            },
        }
        index += count;
    }
    assert(out@ + Seq::<u8>::empty() =~= out@);
    Ok(out)
}

impl CompressedFile {
    /// Makes full indexes compact, for an inode header of the given size.
    pub fn compact_indexes(&mut self, inode_header_size: usize, block_size: u32) -> (done: Result<
        (),
        IndexError,
    >)
        requires
            old(self).metadata@.len() >= 24,
            old(self).metadata@.len() + 512 <= usize::MAX,
            inode_header_size + 16 <= usize::MAX,
            block_size != 0,
        ensures
            match done {
                Ok(()) => compacted(
                    old(self).metadata@,
                    inode_header_size as int,
                    block_size as int,
                ) == Ok::<Seq<u8>, IndexError>(final(self).metadata@),
                Err(error) => compacted(
                    old(self).metadata@,
                    inode_header_size as int,
                    block_size as int,
                ) == Err::<Seq<u8>, IndexError>(error) && final(self).metadata@ == old(self).metadata@,
            },
            final(self).original_size == old(self).original_size,
            final(self).physical_size == old(self).physical_size,
            final(self).compressed_blocks == old(self).compressed_blocks,
            final(self).used_compression == old(self).used_compression,
    {
        let metadata = self.metadata.as_slice();
        let indexes = &metadata[16..metadata.len()];
        assert(indexes@ =~= self.metadata@.skip(16));
        let advise: u16 = bytes::read_u16(metadata, 4);
        let big = advise / 2 % 2 == 1;
        let first: u32 = bytes::read_u32(indexes, 4);
        let block: u32 = if big {
            first
        } else if first == 0 {
            0xffff_ffff
        } else {
            first - 1
        };
        let unit: u32 = find_kind_unit(block_size);
        let packs = match build_packs(indexes, inode_header_size, big, block, unit) {
            Ok(packs) => packs,
            Err(error) => {
                return Err(error);
            },
        };
        let mut output = bytes::copy_range(metadata, 0, 4);
        let flags: u16 = if big {
            7
        } else {
            1
        };
        bytes::push_u16(&mut output, flags);
        bytes::push_all(&mut output, &metadata[6..8]);
        bytes::push_all(&mut output, packs.as_slice());
        assert(output@ =~= self.metadata@.take(4) + bytes::bytes16(flags as int)
            + self.metadata@.subrange(6, 8) + packs@);
        self.metadata = output;
        Ok(())
    }
}

// ---------------------------------------------------------------------------
// Moving indexes
// ---------------------------------------------------------------------------

/// True when index `i` of full indexes states a block that moves with the data.
pub open spec fn states_block(metadata: Seq<u8>, i: int) -> bool {
    metadata[16 + 8 * i] != Z_EROFS_LCLUSTER_TYPE_NONHEAD && bytes::le32(metadata, 20 + 8 * i) != 0
}

/// Full indexes with the blocks of the first `n` moved by `shift`.
pub open spec fn moved(metadata: Seq<u8>, shift: int, n: int) -> Result<Seq<u8>, IndexError>
    decreases n,
{
    if n <= 0 {
        Ok(metadata)
    } else {
        match moved(metadata, shift, n - 1) {
            Err(error) => Err(error),
            Ok(before) => {
                let block = bytes::le32(metadata, 20 + 8 * (n - 1)) + shift;
                if !states_block(metadata, n - 1) {
                    Ok(before)
                } else if block > 0xffff_ffff {
                    Err(IndexError::AddressOverflow)
                } else {
                    Ok(bytes::patched(before, 20 + 8 * (n - 1), bytes::bytes32(block)))
                }
            },
        }
    }
}

/// Compact indexes with the blocks of the packs from `index` on moved by
/// `shift`; the pack stands at `at`.
pub open spec fn moved_packs(
    metadata: Seq<u8>,
    total: int,
    header_size: int,
    shift: int,
    index: int,
    at: int,
) -> Result<Seq<u8>, IndexError>
    decreases
            if index < total {
                total - index
            } else {
                0
            },
{
    if index >= total {
        if at == metadata.len() {
            Ok(metadata)
        } else {
            Err(IndexError::InvalidLength)
        }
    } else {
        let count = pack_count(total, header_size, index);
        proof {
            lemma_pack_count(total, header_size, index);
        }
        let next = at + pack_size(count);
        let block = bytes::le32(metadata, next - 4) + shift;
        if block > 0xffff_ffff {
            Err(IndexError::AddressOverflow)
        } else {
            moved_packs(
                bytes::patched(metadata, next - 4, bytes::bytes32(block)),
                total,
                header_size,
                shift,
                index + count,
                next,
            )
        }
    }
}

/// Indexes with every block moved by `shift`.
pub open spec fn relocated(
    metadata: Seq<u8>,
    header_size: int,
    total: int,
    compact: bool,
    shift: int,
) -> Result<Seq<u8>, IndexError> {
    if compact {
        moved_packs(metadata, total, header_size, shift, 0, 8)
    } else {
        moved(metadata, shift, (metadata.len() - 16) / 8)
    }
}

/// Full indexes as a move leaves them that goes through the first `n`: it stops
/// at the first block that gets too large.
pub open spec fn moved_so_far(metadata: Seq<u8>, shift: int, n: int) -> Seq<u8>
    decreases n,
{
    match moved(metadata, shift, n) {
        Ok(now) => now,
        Err(_) => if n <= 0 {
            metadata
        } else {
            moved_so_far(metadata, shift, n - 1)
        },
    }
}

/// Compact indexes as a move leaves them that goes through the packs from
/// `index` on, of which the first stands at `at`: it stops at the first block
/// that gets too large.
pub open spec fn packs_so_far(
    metadata: Seq<u8>,
    total: int,
    header_size: int,
    shift: int,
    index: int,
    at: int,
) -> Seq<u8>
    decreases
            if index < total {
                total - index
            } else {
                0
            },
{
    if index >= total {
        metadata
    } else {
        let count = pack_count(total, header_size, index);
        proof {
            lemma_pack_count(total, header_size, index);
        }
        let next = at + pack_size(count);
        let block = bytes::le32(metadata, next - 4) + shift;
        if block > 0xffff_ffff {
            metadata
        } else {
            packs_so_far(
                bytes::patched(metadata, next - 4, bytes::bytes32(block)),
                total,
                header_size,
                shift,
                index + count,
                next,
            )
        }
    }
}

/// Indexes as a move by `shift` leaves them, whether it gets to the end or not.
pub open spec fn left_by_move(
    metadata: Seq<u8>,
    header_size: int,
    total: int,
    compact: bool,
    shift: int,
) -> Seq<u8> {
    if compact {
        packs_so_far(metadata, total, header_size, shift, 0, 8)
    } else {
        moved_so_far(metadata, shift, (metadata.len() - 16) / 8)
    }
}

/// A move that fails at an index leaves what the indexes before it made.
proof fn lemma_moved_stops(metadata: Seq<u8>, shift: int, n: int, m: int)
    requires
        0 <= n < m,
        moved(metadata, shift, n) is Ok,
        moved(metadata, shift, n + 1) is Err,
    ensures
        moved_so_far(metadata, shift, m) == moved(metadata, shift, n)->Ok_0,
    decreases m - n,
{
    reveal_with_fuel(moved_so_far, 2);
    lemma_moved_fails(metadata, shift, n + 1, m);
    if m > n + 1 {
        lemma_moved_stops(metadata, shift, n, m - 1);
    }
}

/// Every index takes at least two bytes of a pack.
proof fn lemma_packs_hold(total: int, header_size: int, index: int)
    ensures
        index < total ==> packs_len(total, header_size, index) >= 2 * (total - index),
        packs_len(total, header_size, index) >= 0,
    decreases
            if index < total {
                total - index
            } else {
                0
            },
{
    if index < total {
        lemma_pack_count(total, header_size, index);
        lemma_packs_hold(total, header_size, index + pack_count(total, header_size, index));
    }
}

fn write_u32(data: &mut Vec<u8>, at: usize, value: u32)
    requires
        at + 4 <= old(data)@.len(),
    ensures
        final(data)@ == bytes::patched(old(data)@, at as int, bytes::bytes32(value as int)),
        final(data)@.len() == old(data)@.len(),
{
    assert(data.len() <= usize::MAX);
    let low: u32 = value % 0x1_0000;
    let high: u32 = value / 0x1_0000;
    data[at] = (low % 0x100) as u8;
    data[at + 1] = (low / 0x100) as u8;
    data[at + 2] = (high % 0x100) as u8;
    data[at + 3] = (high / 0x100) as u8;
    assert(data@ =~= bytes::patched(old(data)@, at as int, bytes::bytes32(value as int)));
}

proof fn lemma_moved(metadata: Seq<u8>, shift: int, n: int)
    requires
        0 <= n,
        16 + 8 * n <= metadata.len(),
        moved(metadata, shift, n) is Ok,
        0 <= shift,
    ensures
        moved(metadata, shift, n)->Ok_0.len() == metadata.len(),
        forall|k: int|
            16 + 8 * n <= k < metadata.len() ==> moved(metadata, shift, n)->Ok_0[k]
                == metadata[k],
    decreases n,
{
    if n > 0 {
        lemma_moved(metadata, shift, n - 1);
    }
}

proof fn lemma_moved_fails(metadata: Seq<u8>, shift: int, n: int, m: int)
    requires
        0 <= n <= m,
        moved(metadata, shift, n) is Err,
    ensures
        moved(metadata, shift, m) == moved(metadata, shift, n),
    decreases m,
{
    if n < m {
        lemma_moved_fails(metadata, shift, n, m - 1);
    }
}

/// Moves the blocks that indexes state. Where a block would leave the range of
/// addresses, or compact indexes have another length than their number asks
/// for, the move stops with an error.
pub fn relocate_indexes(
    metadata: &mut Vec<u8>,
    inode_header_size: usize,
    total_indexes: usize,
    compact: bool,
    shift: u32,
) -> (done: Result<(), IndexError>)
    requires
        compact ==> inode_header_size + 16 <= usize::MAX,
        compact ==> 8 + packs_len(total_indexes as int, inode_header_size as int, 0) <= old(
            metadata,
        )@.len(),
        !compact ==> old(metadata)@.len() >= 16,
    ensures
        final(metadata)@ == left_by_move(
            old(metadata)@,
            inode_header_size as int,
            total_indexes as int,
            compact,
            shift as int,
        ),
        final(metadata)@.len() == old(metadata)@.len(),
        match done {
            Ok(()) => relocated(
                old(metadata)@,
                inode_header_size as int,
                total_indexes as int,
                compact,
                shift as int,
            ) == Ok::<Seq<u8>, IndexError>(final(metadata)@),
            Err(error) => relocated(
                old(metadata)@,
                inode_header_size as int,
                total_indexes as int,
                compact,
                shift as int,
            ) == Err::<Seq<u8>, IndexError>(error),
        },
{
    if !compact {
        let ghost full = metadata@;
        let total: usize = (metadata.len() - 16) / 8;
        let mut i: usize = 0;
        while i < total
            invariant
                !compact,
                full == old(metadata)@,
                i <= total,
                total == (full.len() - 16) / 8,
                full.len() >= 16,
                metadata@.len() == full.len(),
                moved(full, shift as int, i as int) == Ok::<Seq<u8>, IndexError>(metadata@),
            decreases total - i,
        {
            proof {
                lemma_moved(full, shift as int, i as int);
            }
            assert(metadata.len() <= usize::MAX);
            let at: usize = 16 + 8 * i;
            let block: u32 = bytes::read_u32(metadata.as_slice(), at + 4);
            assert(block == bytes::le32(full, 20 + 8 * i));
            if metadata[at] != Z_EROFS_LCLUSTER_TYPE_NONHEAD && block != 0 {
                if block > 0xffff_ffff - shift {
                    proof {
                        lemma_moved_fails(full, shift as int, i + 1, total as int);
                        lemma_moved_stops(full, shift as int, i as int, total as int);
                    }
                    return Err(IndexError::AddressOverflow);
                }
                write_u32(metadata, at + 4, block + shift);
            }
            i += 1;
        }
        return Ok(());
    }
    let initial: usize = count_initial(total_indexes, inode_header_size);
    let ghost all = metadata@;
    let ghost total = total_indexes as int;
    let ghost header = inode_header_size as int;
    let ghost model = moved_packs(all, total, header, shift as int, 0, 8);
    let ghost left = packs_so_far(all, total, header, shift as int, 0, 8);
    let mut index: usize = 0;
    let mut at: usize = 8;
    assert(metadata.len() <= usize::MAX);
    proof {
        lemma_packs_len(total, header, 0);
        lemma_packs_hold(total, header, 0);
    }
    while index < total_indexes
        invariant
            compact,
            all == old(metadata)@,
            model == moved_packs(all, total, header, shift as int, 0, 8),
            header == inode_header_size,
            initial == initial_count(total, header),
            initial <= total_indexes,
            total == total_indexes,
            total_indexes + 16 <= usize::MAX,
            index < total_indexes + 16,
            metadata@.len() == all.len(),
            8 <= at,
            at + packs_len(total, header, index as int) <= metadata@.len(),
            model == moved_packs(metadata@, total, header, shift as int, index as int, at as int),
            left == packs_so_far(metadata@, total, header, shift as int, index as int, at as int),
            left == packs_so_far(all, total, header, shift as int, 0, 8),
        decreases
                if index < total_indexes {
                    total_indexes - index
                } else {
                    0
                },
    {
        let count: usize = count_in_pack(total_indexes, inode_header_size, initial, index);
        proof {
            lemma_packs_len(total, header, index + count);
        }
        assert(metadata.len() <= usize::MAX);
        let next: usize = at + if count == 16 {
            32
        } else {
            8
        };
        let block: u32 = bytes::read_u32(metadata.as_slice(), next - 4);
        if block > 0xffff_ffff - shift {
            return Err(IndexError::AddressOverflow);
        }
        write_u32(metadata, next - 4, block + shift);
        index += count;
        at = next;
    }
    if at == metadata.len() {
        Ok(())
    } else {
        Err(IndexError::InvalidLength)
    }
}

// ---------------------------------------------------------------------------
// Laws
// ---------------------------------------------------------------------------

/// How many whole blocks hold `length` bytes.
pub open spec fn block_count(length: int, block_size: int) -> int {
    (length + block_size - 1) / block_size
}

pub proof fn lemma_cluster_records(
    kind: int,
    offset: int,
    block: int,
    forward: int,
    blocks: int,
    big: bool,
    count: int,
)
    requires
        0 <= count,
    ensures
        compression::cluster_records(kind, offset, block, forward, blocks, big, count).len() == 8
            * count,
    decreases count,
{
    if count > 1 {
        lemma_cluster_records(kind, offset, block, forward, blocks, big, count - 1);
    }
}

/// A cluster holds something of the file, at least a whole block where the file
/// does not end with it.
pub proof fn lemma_cluster_bounds<F: Fn(&[u8], usize) -> Option<(usize, Vec<u8>)>>(
    lz4: F,
    input: Seq<u8>,
    at: int,
    block_size: int,
    cluster_size: usize,
    method: Compression,
    c: Cluster,
)
    requires
        0 <= at < input.len(),
        compression::is_block_size(block_size),
        compression::is_cluster_size(cluster_size as int, block_size),
        compression::is_cluster(lz4, input, at, block_size, cluster_size, method, c),
    ensures
        0 < c.consumed,
        at + c.consumed <= input.len(),
        c.consumed >= block_size || at + c.consumed == input.len(),
{
    let source = compression::window(
        input,
        at,
        compression::source_limit(cluster_size as int),
    );
    if method != Compression::Off && source.len() > block_size {
        let (consumed, packed) = choose|consumed: int, packed: Seq<u8>|
            {
                &&& compression::is_answer(source, cluster_size as int, consumed, packed)
                &&& compression::answers(lz4, source, cluster_size, consumed, packed)
                &&& c == #[trigger] compression::cluster_of(source, consumed, packed, block_size)
            };
        compression::lemma_in_blocks(packed.len() as int, block_size);
    }
}

/// The indexes of clusters that end inside of the file.
pub open spec fn inner_count(state: IndexState, consumed: int, block_size: int) -> bool {
    let k = (state.bytes.len() - 16) / 8;
    &&& state.bytes.len() >= 16
    &&& state.bytes.len() % 8 == 0
    &&& 0 <= state.offset < block_size
    &&& k * block_size + state.offset == consumed
}

/// One more cluster keeps the count of the indexes.
proof fn lemma_indexed_count(
    state: IndexState,
    consumed: int,
    length: int,
    block: int,
    blocks: int,
    raw: bool,
    block_size: int,
    big: bool,
)
    requires
        compression::is_block_size(block_size),
        inner_count(state, consumed, block_size),
        0 < length,
    ensures
        ({
            let next = compression::indexed(state, length, block, blocks, raw, block_size, big);
            &&& state.offset + length >= block_size ==> inner_count(
                next,
                consumed + length,
                block_size,
            )
            &&& state.offset + length < block_size ==> next.offset == 0 && next.bytes.len() == 16
                + 8 * block_count(consumed + length, block_size)
        }),
{
    let k = (state.bytes.len() - 16) / 8;
    let end = state.offset + length;
    let forward = end / block_size;
    let next = compression::indexed(state, length, block, blocks, raw, block_size, big);
    vstd::arithmetic::div_mod::lemma_fundamental_div_mod(end, block_size);
    vstd::arithmetic::div_mod::lemma_mod_bound(end, block_size);
    assert(forward >= 0) by (nonlinear_arith)
        requires
            forward == end / block_size,
            end >= 0,
            block_size > 0,
    ;
    let kind = if raw {
        0int
    } else {
        1
    };
    lemma_cluster_records(kind, state.offset, block, forward, blocks, big, forward);
    if end >= block_size {
        assert(forward > 0) by (nonlinear_arith)
            requires
                forward == end / block_size,
                end >= block_size,
                block_size > 0,
        ;
        assert((next.bytes.len() - 16) / 8 == k + forward);
        assert((k + forward) * block_size == k * block_size + block_size * forward)
            by (nonlinear_arith);
    } else {
        assert(forward == 0) by (nonlinear_arith)
            requires
                forward == end / block_size,
                0 <= end < block_size,
        ;
        assert(next.bytes.len() == state.bytes.len() + 8);
        assert(block_count(consumed + length, block_size) == k + 1) by (nonlinear_arith)
            requires
                consumed + length == k * block_size + end,
                0 < end < block_size,
                block_count(consumed + length, block_size) == (consumed + length + block_size - 1)
                    / block_size,
        ;
    }
}

pub proof fn lemma_index_count<F: Fn(&[u8], usize) -> Option<(usize, Vec<u8>)>>(
    lz4: F,
    input: Seq<u8>,
    start: int,
    block_size: int,
    cluster_size: usize,
    method: Compression,
    clusters: Seq<Cluster>,
    n: int,
)
    requires
        compression::is_block_size(block_size),
        compression::is_cluster_size(cluster_size as int, block_size),
        compression::is_run(lz4, input, block_size, cluster_size, method, clusters),
        0 <= n <= clusters.len(),
    ensures
        ({
            let big = cluster_size > block_size;
            let state = compression::indexes_of(clusters, start, block_size, big, n);
            let consumed = compression::consumed_by(clusters, n);
            &&& 0 <= consumed <= input.len()
            &&& inner_count(state, consumed, block_size) || (consumed == input.len() && state.offset
                == 0 && state.bytes.len() == 16 + 8 * block_count(consumed, block_size))
            &&& consumed < input.len() ==> inner_count(state, consumed, block_size)
        }),
    decreases n,
{
    let big = cluster_size > block_size;
    if n > 0 {
        lemma_index_count(
            lz4,
            input,
            start,
            block_size,
            cluster_size,
            method,
            clusters,
            n - 1,
        );
        let at = compression::consumed_by(clusters, n - 1);
        let c = clusters[n - 1];
        assert(compression::follows(
            lz4,
            input,
            block_size,
            cluster_size,
            method,
            clusters,
            n - 1,
        ));
        reveal(compression::follows);
        lemma_cluster_bounds(lz4, input, at, block_size, cluster_size, method, c);
        lemma_indexed_count(
            compression::indexes_of(clusters, start, block_size, big, n - 1),
            at,
            c.consumed,
            (start + compression::stored_by(clusters, n - 1).len()) / block_size,
            c.stored.len() as int / block_size,
            c.raw,
            block_size,
            big,
        );
    } else {
        assert(compression::no_indexes(big).bytes.len() == 16);
        assert(0 * block_size == 0);
    }
}

/// There is one index for each block of the file, behind sixteen bytes.
pub(crate) proof fn lemma_ended_count<F: Fn(&[u8], usize) -> Option<(usize, Vec<u8>)>>(
    lz4: F,
    input: Seq<u8>,
    start: int,
    block_size: int,
    cluster_size: usize,
    method: Compression,
    clusters: Seq<Cluster>,
)
    requires
        compression::is_block_size(block_size),
        compression::is_cluster_size(cluster_size as int, block_size),
        compression::is_run(lz4, input, block_size, cluster_size, method, clusters),
        compression::consumed_by(clusters, clusters.len() as int) == input.len(),
    ensures
        ({
            let state = compression::indexes_of(
                clusters,
                start,
                block_size,
                cluster_size > block_size,
                clusters.len() as int,
            );
            &&& compression::ended(state).len() == 16 + 8 * block_count(
                input.len() as int,
                block_size,
            )
            &&& state.offset != 0 ==> state.offset == input.len() as int % block_size
                && state.bytes.len() == 16 + 8 * (input.len() as int / block_size)
        }),
{
    let n = clusters.len() as int;
    let big = cluster_size > block_size;
    lemma_index_count(lz4, input, start, block_size, cluster_size, method, clusters, n);
    let state = compression::indexes_of(clusters, start, block_size, big, n);
    let consumed = input.len() as int;
    if inner_count(state, consumed, block_size) {
        let k = (state.bytes.len() - 16) / 8;
        if state.offset == 0 {
            assert(block_count(consumed, block_size) == k) by (nonlinear_arith)
                requires
                    consumed == k * block_size,
                    block_size > 0,
                    block_count(consumed, block_size) == (consumed + block_size - 1) / block_size,
            ;
        } else {
            assert(block_count(consumed, block_size) == k + 1) by (nonlinear_arith)
                requires
                    consumed == k * block_size + state.offset,
                    0 < state.offset < block_size,
                    block_count(consumed, block_size) == (consumed + block_size - 1) / block_size,
            ;
        }
    }
    if state.offset != 0 {
        let k = (state.bytes.len() - 16) / 8;
        vstd::arithmetic::div_mod::lemma_fundamental_div_mod_converse(
            consumed,
            block_size,
            k,
            state.offset,
        );
    }
}

/// A compressed file has one index for each block of the file, behind sixteen
/// bytes of header.
pub proof fn law_one_index_per_block<F: Fn(&[u8], usize) -> Option<(usize, Vec<u8>)>>(
    lz4: F,
    input: Seq<u8>,
    start: int,
    block_size: int,
    cluster_size: usize,
    method: Compression,
    file: CompressedFile,
    stored: Seq<u8>,
)
    requires
        compression::is_block_size(block_size),
        compression::is_cluster_size(cluster_size as int, block_size),
        compression::compresses_to(
            lz4,
            input,
            start,
            block_size,
            cluster_size,
            method,
            file,
            stored,
        ),
    ensures
        file.metadata@.len() == 16 + 8 * block_count(input.len() as int, block_size),
{
    let clusters = choose|clusters: Seq<Cluster>|
        #[trigger] compression::is_compressed(
            lz4,
            input,
            start,
            block_size,
            cluster_size,
            method,
            clusters,
            file,
            stored,
        );
    lemma_ended_count(lz4, input, start, block_size, cluster_size, method, clusters);
}

#[verifier::rlimit(40)]
#[verifier::spinoff_prover]
pub(crate) proof fn lemma_pack_bytes(values: Seq<int>, base: int)
    requires
        values.len() == 2 || values.len() == 16,
    ensures
        pack_bytes(values, base).len() == pack_size(values.len() as int),
{
    reveal(seven_bytes);
}

proof fn lemma_slots_count(
    indexes: Seq<u8>,
    total: int,
    index: int,
    count: int,
    start: SlotState,
    n: int,
)
    requires
        0 <= n,
        slots(indexes, total, index, count, start, n) is Ok,
    ensures
        slots(indexes, total, index, count, start, n)->Ok_0.values.len() == start.values.len() + n,
    decreases n,
{
    if n > 0 {
        lemma_slots_count(indexes, total, index, count, start, n - 1);
    }
}

proof fn lemma_compact_length(
    indexes: Seq<u8>,
    total: int,
    header_size: int,
    big: bool,
    index: int,
    block: int,
    pending: bool,
    unit: int,
)
    requires
        compact_from(indexes, total, header_size, big, index, block, pending, unit) is Ok,
    ensures
        compact_from(indexes, total, header_size, big, index, block, pending, unit)->Ok_0.len()
            == packs_len(total, header_size, index),
    decreases
            if index < total {
                total - index
            } else {
                0
            },
{
    if index < total {
        let count = pack_count(total, header_size, index);
        lemma_pack_count(total, header_size, index);
        let start = SlotState { block, pending, base: block, open_base: big, values: seq![], unit };
        let s = slots(indexes, total, index, count, start, count)->Ok_0;
        lemma_slots_count(indexes, total, index, count, start, count);
        lemma_pack_bytes(s.values, s.base);
        lemma_compact_length(indexes, total, header_size, big, index + count, s.block, s.pending, unit);
    }
}

/// Compact indexes have exactly the length that moving them asks for.
pub proof fn law_compact_length(metadata: Seq<u8>, header_size: int, block_size: int)
    requires
        metadata.len() >= 24,
        compacted(metadata, header_size, block_size) is Ok,
    ensures
        compacted(metadata, header_size, block_size)->Ok_0.len() == 8 + packs_len(
            (metadata.len() - 16) / 8,
            header_size,
            0,
        ),
{
    let indexes = metadata.skip(16);
    let first = bytes::le32(indexes, 4);
    let big = is_big(metadata);
    let block = if big {
        first
    } else if first == 0 {
        0xffff_ffff
    } else {
        first - 1
    };
    lemma_compact_length(
        indexes,
        indexes.len() as int / 8,
        header_size,
        big,
        0,
        block,
        !big,
        kind_unit(block_size),
    );
}

/// True when the index of `b` at `at` is that of `a`, with the block that it
/// states moved by `shift`.
spec fn record_moves(a: Seq<u8>, b: Seq<u8>, shift: int, at: int) -> bool {
    &&& b[at] == a[at]
    &&& b[at + 1] == a[at + 1]
    &&& b[at + 2] == a[at + 2]
    &&& b[at + 3] == a[at + 3]
    &&& a[at] != 2 && bytes::le32(a, at + 4) != 0 ==> bytes::le32(b, at + 4) == bytes::le32(
        a,
        at + 4,
    ) + shift
    &&& a[at] == 2 || bytes::le32(a, at + 4) == 0 ==> b.subrange(at + 4, at + 8) == a.subrange(
        at + 4,
        at + 8,
    )
}

/// True when `b` holds the indexes of `a`, from byte `from` up to byte `to`,
/// with every block that they state moved by `shift`.
spec fn moves_to(a: Seq<u8>, b: Seq<u8>, shift: int, from: int, to: int) -> bool {
    &&& a.len() == b.len()
    &&& forall|at: int|
        from <= at && at + 8 <= to && (at - from) % 8 == 0 ==> #[trigger] record_moves(
            a,
            b,
            shift,
            at,
        )
}

/// Two sequences that write the same number are the same.
proof fn lemma_le32_same(a: Seq<u8>, i: int, v: int)
    requires
        0 <= i,
        i + 4 <= a.len(),
        bytes::le32(a, i) == v,
    ensures
        a.subrange(i, i + 4) == bytes::bytes32(v),
{
    assert(a.subrange(i, i + 4) =~= bytes::bytes32(v));
}

proof fn lemma_moves(a: Seq<u8>, b: Seq<u8>, shift: int, n: int)
    requires
        0 <= n,
        16 + 8 * n <= a.len(),
        a.take(16) == b.take(16),
        moves_to(a, b, shift, 16, a.len() as int),
        0 <= shift,
    ensures
        moved(a, shift, n) == Ok::<Seq<u8>, IndexError>(b.take(16 + 8 * n) + a.skip(16 + 8 * n)),
    decreases n,
{
    if n == 0 {
        assert(a =~= b.take(16) + a.skip(16));
    } else {
        lemma_moves(a, b, shift, n - 1);
        let at = 16 + 8 * (n - 1);
        let before = b.take(at) + a.skip(at);
        let after = b.take(at + 8) + a.skip(at + 8);
        assert(record_moves(a, b, shift, at));
        if states_block(a, n - 1) {
            let block = bytes::le32(a, at + 4) + shift;
            lemma_le32_same(b, at + 4, block);
            let patch = bytes::bytes32(block);
            assert forall|k: int| 0 <= k < 4 implies b[at + 4 + k] == #[trigger] patch[k] by {
                assert(b.subrange(at + 4, at + 8)[k] == b[at + 4 + k]);
            }
            assert(bytes::patched(before, at + 4, patch) =~= after);
        } else {
            let old_tail = a.subrange(at + 4, at + 8);
            assert forall|k: int| 0 <= k < 4 implies b[at + 4 + k] == #[trigger] old_tail[k] by {
                assert(b.subrange(at + 4, at + 8)[k] == old_tail[k]);
            }
            assert(old_tail[0] == a[at + 4] && old_tail[1] == a[at + 5]);
            assert(old_tail[2] == a[at + 6] && old_tail[3] == a[at + 7]);
            assert(before =~= after);
        }
    }
}

/// What is appended moves as what is there.
proof fn lemma_moves_append(
    a: Seq<u8>,
    b: Seq<u8>,
    ra: Seq<u8>,
    rb: Seq<u8>,
    shift: int,
    from: int,
)
    requires
        0 <= from <= a.len(),
        from % 8 == 0,
        a.len() % 8 == 0,
        ra.len() % 8 == 0,
        moves_to(a, b, shift, from, a.len() as int),
        moves_to(ra, rb, shift, 0, ra.len() as int),
    ensures
        moves_to(a + ra, b + rb, shift, from, (a + ra).len() as int),
{
    let wa = a + ra;
    let wb = b + rb;
    assert forall|at: int|
        from <= at && at + 8 <= wa.len() && (at - from) % 8 == 0 implies #[trigger] record_moves(
        wa,
        wb,
        shift,
        at,
    ) by {
        if at < a.len() {
            assert(at + 8 <= a.len());
            assert(record_moves(a, b, shift, at));
            assert(wa.subrange(at + 4, at + 8) =~= a.subrange(at + 4, at + 8));
            assert(wb.subrange(at + 4, at + 8) =~= b.subrange(at + 4, at + 8));
        } else {
            let k = at - a.len();
            assert(record_moves(ra, rb, shift, k));
            assert(wa.subrange(at + 4, at + 8) =~= ra.subrange(k + 4, k + 8));
            assert(wb.subrange(at + 4, at + 8) =~= rb.subrange(k + 4, k + 8));
        }
    }
}

proof fn lemma_records_move(
    kind: int,
    offset: int,
    block: int,
    shift: int,
    forward: int,
    blocks: int,
    big: bool,
    count: int,
)
    requires
        kind == 0 || kind == 1,
        0 <= offset < 4096,
        0 < block,
        0 <= shift,
        block + shift <= 0xffff_ffff,
        1 <= count,
    ensures
        moves_to(
            compression::cluster_records(kind, offset, block, forward, blocks, big, count),
            compression::cluster_records(kind, offset, block + shift, forward, blocks, big, count),
            shift,
            0,
            8 * count,
        ),
    decreases count,
{
    lemma_cluster_records(kind, offset, block, forward, blocks, big, count);
    lemma_cluster_records(kind, offset, block + shift, forward, blocks, big, count);
    if count == 1 {
        lemma_head_record(kind, offset, block, shift);
    } else {
        lemma_records_move(kind, offset, block, shift, forward, blocks, big, count - 1);
        lemma_cluster_records(kind, offset, block, forward, blocks, big, count - 1);
        lemma_cluster_records(kind, offset, block + shift, forward, blocks, big, count - 1);
        let fa = compression::cluster_records(kind, offset, block, forward, blocks, big, count - 1);
        let fb = compression::cluster_records(
            kind,
            offset,
            block + shift,
            forward,
            blocks,
            big,
            count - 1,
        );
        let r = compression::inner_record(
            offset,
            count - 1,
            forward - (count - 1),
            blocks,
            big,
        );
        assert(r[0] == 2);
        assert(record_moves(r, r, shift, 0));
        assert(moves_to(r, r, shift, 0, 8)) by {
            assert forall|at: int|
                0 <= at && at + 8 <= 8 && (at - 0) % 8 == 0 implies #[trigger] record_moves(
                r,
                r,
                shift,
                at,
            ) by {
                assert(at == 0);
            }
        }
        lemma_moves_append(fa, fb, r, r, shift, 0);
    }
}

proof fn lemma_head_record(kind: int, offset: int, block: int, shift: int)
    requires
        kind == 0 || kind == 1,
        0 < block,
        0 <= shift,
        block + shift <= 0xffff_ffff,
    ensures
        moves_to(
            compression::index_record(kind, offset, bytes::bytes32(block)),
            compression::index_record(kind, offset, bytes::bytes32(block + shift)),
            shift,
            0,
            8,
        ),
{
    let a = compression::index_record(kind, offset, bytes::bytes32(block));
    let b = compression::index_record(kind, offset, bytes::bytes32(block + shift));
    bytes::lemma_bytes32(block);
    bytes::lemma_bytes32(block + shift);
    assert(a[0] == kind);
    assert(bytes::le32(a, 4) == bytes::le32(bytes::bytes32(block), 0));
    assert(bytes::le32(b, 4) == bytes::le32(bytes::bytes32(block + shift), 0));
    assert(a[4] == bytes::bytes32(block)[0]);
}

proof fn lemma_state_moves(
    a: IndexState,
    b: IndexState,
    length: int,
    block: int,
    shift: int,
    blocks: int,
    raw: bool,
    block_size: int,
    big: bool,
)
    requires
        compression::is_block_size(block_size),
        a.offset == b.offset,
        0 <= a.offset < block_size,
        a.bytes.len() >= 16,
        a.bytes.len() % 8 == 0,
        moves_to(a.bytes, b.bytes, shift, 16, a.bytes.len() as int),
        0 < length,
        0 < block,
        0 <= shift,
        block + shift <= 0xffff_ffff,
    ensures
        ({
            let na = compression::indexed(a, length, block, blocks, raw, block_size, big);
            let nb = compression::indexed(b, length, block + shift, blocks, raw, block_size, big);
            &&& na.offset == nb.offset
            &&& 0 <= na.offset < block_size
            &&& na.bytes.len() >= 16
            &&& na.bytes.len() % 8 == 0
            &&& moves_to(na.bytes, nb.bytes, shift, 16, na.bytes.len() as int)
            &&& na.bytes.take(16) == a.bytes.take(16)
            &&& nb.bytes.take(16) == b.bytes.take(16)
        }),
{
    let na = compression::indexed(a, length, block, blocks, raw, block_size, big);
    let nb = compression::indexed(b, length, block + shift, blocks, raw, block_size, big);
    let end = a.offset + length;
    let forward = end / block_size;
    vstd::arithmetic::div_mod::lemma_mod_bound(end, block_size);
    assert(forward >= 0) by (nonlinear_arith)
        requires
            forward == end / block_size,
            end >= 0,
            block_size > 0,
    ;
    let kind = if raw {
        0int
    } else {
        1
    };
    if forward == 0 {
        lemma_head_record(kind, a.offset, block, shift);
        lemma_moves_append(
            a.bytes,
            b.bytes,
            compression::index_record(kind, a.offset, bytes::bytes32(block)),
            compression::index_record(kind, a.offset, bytes::bytes32(block + shift)),
            shift,
            16,
        );
    } else {
        lemma_records_move(kind, a.offset, block, shift, forward, blocks, big, forward);
        lemma_cluster_records(kind, a.offset, block, forward, blocks, big, forward);
        lemma_moves_append(
            a.bytes,
            b.bytes,
            compression::cluster_records(kind, a.offset, block, forward, blocks, big, forward),
            compression::cluster_records(
                kind,
                a.offset,
                block + shift,
                forward,
                blocks,
                big,
                forward,
            ),
            shift,
            16,
        );
    }
    assert(na.bytes.take(16) =~= a.bytes.take(16));
    assert(nb.bytes.take(16) =~= b.bytes.take(16));
}

/// The block of the data that stands at `position` moves with it.
pub(crate) proof fn lemma_block_moves(position: int, block_size: int, shift: int)
    requires
        compression::is_block_size(block_size),
    ensures
        (position + shift * block_size) / block_size == position / block_size + shift,
{
    vstd::arithmetic::div_mod::lemma_hoist_over_denominator(position, shift, block_size as nat);
}

proof fn lemma_all_move(
    clusters: Seq<Cluster>,
    start: int,
    shift: int,
    block_size: int,
    big: bool,
    n: int,
)
    requires
        compression::is_block_size(block_size),
        0 <= n <= clusters.len(),
        forall|i: int| 0 <= i < clusters.len() ==> (#[trigger] clusters[i]).consumed > 0,
        start >= block_size,
        0 <= shift,
        (start + compression::stored_by(clusters, n).len()) / block_size + shift <= 0xffff_ffff,
    ensures
        ({
            let a = compression::indexes_of(clusters, start, block_size, big, n);
            let b = compression::indexes_of(
                clusters,
                start + shift * block_size,
                block_size,
                big,
                n,
            );
            &&& a.offset == b.offset
            &&& 0 <= a.offset < block_size
            &&& a.bytes.len() >= 16
            &&& a.bytes.len() % 8 == 0
            &&& moves_to(a.bytes, b.bytes, shift, 16, a.bytes.len() as int)
            &&& a.bytes.take(16) == b.bytes.take(16)
        }),
    decreases n,
{
    if n == 0 {
        assert(compression::no_indexes(big).bytes.len() == 16);
    } else {
        let before = compression::stored_by(clusters, n - 1).len() as int;
        let after = compression::stored_by(clusters, n).len() as int;
        assert(before <= after);
        let position = start + before;
        assert(position / block_size <= (start + after) / block_size && position / block_size > 0)
            by (nonlinear_arith)
            requires
                position == start + before,
                0 <= before <= after,
                start >= block_size,
                block_size > 0,
        ;
        lemma_all_move(clusters, start, shift, block_size, big, n - 1);
        lemma_block_moves(position, block_size, shift);
        assert(start + shift * block_size + before == position + shift * block_size);
        let c = clusters[n - 1];
        lemma_state_moves(
            compression::indexes_of(clusters, start, block_size, big, n - 1),
            compression::indexes_of(clusters, start + shift * block_size, block_size, big, n - 1),
            c.consumed,
            position / block_size,
            shift,
            c.stored.len() as int / block_size,
            c.raw,
            block_size,
            big,
        );
    }
}

/// Moving full indexes by a number of blocks gives the indexes of the same
/// clusters, stored that many blocks further on. Block counts stay as they are.
#[verifier::rlimit(50)]
#[verifier::spinoff_prover]
pub proof fn law_moved_indexes_find_moved_data(
    clusters: Seq<Cluster>,
    start: int,
    shift: int,
    block_size: int,
    big: bool,
)
    requires
        compression::is_block_size(block_size),
        forall|i: int| 0 <= i < clusters.len() ==> (#[trigger] clusters[i]).consumed > 0,
        start >= block_size,
        0 <= shift,
        (start + compression::stored_by(clusters, clusters.len() as int).len()) / block_size + shift
            <= 0xffff_ffff,
    ensures
        ({
            let n = clusters.len() as int;
            let a = compression::ended(
                compression::indexes_of(clusters, start, block_size, big, n),
            );
            let b = compression::ended(
                compression::indexes_of(clusters, start + shift * block_size, block_size, big, n),
            );
            moved(a, shift, (a.len() - 16) / 8) == Ok::<Seq<u8>, IndexError>(b)
        }),
{
    let n = clusters.len() as int;
    let sa = compression::indexes_of(clusters, start, block_size, big, n);
    let sb = compression::indexes_of(clusters, start + shift * block_size, block_size, big, n);
    lemma_all_move(clusters, start, shift, block_size, big, n);
    let a = compression::ended(sa);
    let b = compression::ended(sb);
    if sa.offset != 0 {
        let r = compression::index_record(0, sa.offset, bytes::bytes32(0));
        bytes::lemma_bytes32(0);
        assert(bytes::le32(r, 4) == bytes::le32(bytes::bytes32(0), 0));
        assert(moves_to(r, r, shift, 0, 8));
        lemma_moves_append(sa.bytes, sb.bytes, r, r, shift, 16);
        assert(a == sa.bytes + r);
        assert(b == sb.bytes + r);
        assert(a.take(16) =~= sa.bytes.take(16));
        assert(b.take(16) =~= sb.bytes.take(16));
    }
    let total = (a.len() - 16) / 8;
    assert(16 + 8 * total == a.len());
    lemma_moves(a, b, shift, total);
    assert(b.take(a.len() as int) + a.skip(a.len() as int) =~= b);
}

/// What a move by `shift` leaves of full indexes, record by record.
proof fn lemma_moved_records(metadata: Seq<u8>, shift: int, n: int)
    requires
        0 <= n,
        16 + 8 * n <= metadata.len(),
        0 <= shift,
        moved(metadata, shift, n) is Ok,
    ensures
        ({
            let now = moved(metadata, shift, n)->Ok_0;
            &&& now.len() == metadata.len()
            &&& forall|k: int| 0 <= k < 16 ==> now[k] == metadata[k]
            &&& forall|k: int| 16 + 8 * n <= k < now.len() ==> now[k] == metadata[k]
            &&& forall|i: int| 0 <= i < n ==> #[trigger] is_moved_record(metadata, now, shift, i)
        }),
    decreases n,
{
    if n > 0 {
        lemma_moved_records(metadata, shift, n - 1);
        let before = moved(metadata, shift, n - 1)->Ok_0;
        let now = moved(metadata, shift, n)->Ok_0;
        let block = bytes::le32(metadata, 20 + 8 * (n - 1)) + shift;
        if states_block(metadata, n - 1) {
            bytes::lemma_bytes32(block);
        }
        assert forall|i: int| 0 <= i < n implies #[trigger] is_moved_record(
            metadata,
            now,
            shift,
            i,
        ) by {
            if i < n - 1 {
                assert(is_moved_record(metadata, before, shift, i));
                let at = 16 + 8 * i;
                assert(forall|k: int| at <= k < at + 8 ==> now[k] == before[k]);
                assert(now[at + 4] == before[at + 4] && now[at + 5] == before[at + 5]);
                assert(now[at + 6] == before[at + 6] && now[at + 7] == before[at + 7]);
            } else if states_block(metadata, i) {
                let patch = bytes::bytes32(block);
                assert(now[20 + 8 * i] == patch[0] && now[21 + 8 * i] == patch[1]);
                assert(now[22 + 8 * i] == patch[2] && now[23 + 8 * i] == patch[3]);
                assert(bytes::le32(now, 20 + 8 * i) == bytes::le32(patch, 0));
            }
        }
    }
}

/// True when record `i` is as before, but for a block that is moved.
spec fn is_moved_record(metadata: Seq<u8>, now: Seq<u8>, shift: int, i: int) -> bool {
    let at = 16 + 8 * i;
    &&& forall|k: int| at <= k < at + 4 ==> now[k] == metadata[k]
    &&& if states_block(metadata, i) {
        bytes::le32(now, at + 4) == bytes::le32(metadata, at + 4) + shift
    } else {
        forall|k: int| at + 4 <= k < at + 8 ==> now[k] == metadata[k]
    }
}

/// Full indexes that were moved state blocks where they did before.
proof fn lemma_still_states(metadata: Seq<u8>, now: Seq<u8>, shift: int, i: int)
    requires
        0 <= i,
        0 <= shift,
        16 + 8 * i + 8 <= metadata.len(),
        is_moved_record(metadata, now, shift, i),
    ensures
        states_block(now, i) == states_block(metadata, i),
        !states_block(metadata, i) ==> bytes::le32(now, 20 + 8 * i) == bytes::le32(
            metadata,
            20 + 8 * i,
        ),
{
    let at = 16 + 8 * i;
    if !states_block(metadata, i) {
        assert(now[at + 4] == metadata[at + 4] && now[at + 5] == metadata[at + 5]);
        assert(now[at + 6] == metadata[at + 6] && now[at + 7] == metadata[at + 7]);
    }
}

/// Two moves of full indexes are one move by the sum.
proof fn lemma_moves_add(m0: Seq<u8>, first: int, second: int, total: int, n: int)
    requires
        0 <= n <= total,
        16 + 8 * total <= m0.len(),
        0 <= first,
        0 <= second,
        moved(m0, first, total) is Ok,
        moved(moved(m0, first, total)->Ok_0, second, n) is Ok,
    ensures
        ({
            let m1 = moved(m0, first, total)->Ok_0;
            let m2 = moved(m1, second, n)->Ok_0;
            &&& moved(m0, first + second, n) is Ok
            &&& moved(m0, first + second, n)->Ok_0 == m2.take(16 + 8 * n) + m0.skip(16 + 8 * n)
        }),
    decreases n,
{
    let m1 = moved(m0, first, total)->Ok_0;
    lemma_moved_records(m0, first, total);
    lemma_moved_records(m1, second, n);
    let m2 = moved(m1, second, n)->Ok_0;
    let at = 16 + 8 * n;
    if n == 0 {
        assert(m2.take(at) + m0.skip(at) =~= m0);
    } else {
        lemma_moves_add(m0, first, second, total, n - 1);
        let b2 = moved(m1, second, n - 1)->Ok_0;
        let before = moved(m0, first + second, n - 1)->Ok_0;
        assert(is_moved_record(m0, m1, first, n - 1));
        lemma_still_states(m0, m1, first, n - 1);
        let block = bytes::le32(m0, 20 + 8 * (n - 1)) + first + second;
        let patch = bytes::bytes32(block);
        lemma_moved_records(m1, second, n - 1);
        let record = at - 8;
        assert(forall|k: int| record <= k < at ==> b2[k] == m1[k]);
        assert(forall|k: int| record <= k < record + 4 ==> m1[k] == m0[k]);
        if states_block(m0, n - 1) {
            assert(m2 == bytes::patched(b2, record + 4, patch));
            assert(bytes::patched(before, record + 4, patch) =~= m2.take(at) + m0.skip(at));
        } else {
            assert(m2 == b2);
            assert(forall|k: int| record + 4 <= k < at ==> m1[k] == m0[k]);
            assert(before =~= m2.take(at) + m0.skip(at));
        }
    }
}

/// The packs before those that are moved stay, and so does the length.
pub(crate) proof fn lemma_moved_packs(
    metadata: Seq<u8>,
    total: int,
    header_size: int,
    shift: int,
    index: int,
    at: int,
)
    requires
        8 <= at,
        at + packs_len(total, header_size, index) <= metadata.len(),
        moved_packs(metadata, total, header_size, shift, index, at) is Ok,
    ensures
        ({
            let now = moved_packs(metadata, total, header_size, shift, index, at)->Ok_0;
            &&& now.len() == metadata.len()
            &&& forall|k: int| 0 <= k < at ==> now[k] == metadata[k]
        }),
    decreases
            if index < total {
                total - index
            } else {
                0
            },
{
    if index < total {
        let count = pack_count(total, header_size, index);
        lemma_pack_count(total, header_size, index);
        lemma_packs_len(total, header_size, index + count);
        let next = at + pack_size(count);
        let block = bytes::le32(metadata, next - 4) + shift;
        let now = bytes::patched(metadata, next - 4, bytes::bytes32(block));
        assert(now.len() == metadata.len());
        lemma_moved_packs(now, total, header_size, shift, index + count, next);
    }
}

/// Two moves of compact indexes are one move by the sum: `a` is as the first
/// move found it from `at` on, `b` as the second did, and `c` is `a` there and
/// `b` before.
proof fn lemma_pack_moves_add(
    a: Seq<u8>,
    b: Seq<u8>,
    c: Seq<u8>,
    total: int,
    header_size: int,
    first: int,
    second: int,
    index: int,
    at: int,
)
    requires
        8 <= at,
        0 <= first,
        0 <= second,
        at + packs_len(total, header_size, index) <= a.len(),
        a.len() == b.len() == c.len(),
        moved_packs(a, total, header_size, first, index, at) is Ok,
        forall|k: int|
            at <= k < a.len() ==> b[k] == moved_packs(
                a,
                total,
                header_size,
                first,
                index,
                at,
            )->Ok_0[k],
        forall|k: int| at <= k < a.len() ==> c[k] == a[k],
        forall|k: int| 0 <= k < at ==> c[k] == b[k],
        moved_packs(b, total, header_size, second, index, at) is Ok,
    ensures
        moved_packs(c, total, header_size, first + second, index, at) == moved_packs(
            b,
            total,
            header_size,
            second,
            index,
            at,
        ),
    decreases
            if index < total {
                total - index
            } else {
                0
            },
{
    if index >= total {
        assert(c =~= b) by {
            assert(moved_packs(a, total, header_size, first, index, at)->Ok_0 == a);
        }
    } else {
        let count = pack_count(total, header_size, index);
        lemma_pack_count(total, header_size, index);
        lemma_packs_len(total, header_size, index + count);
        let next = at + pack_size(count);
        let from = next - 4;
        let block = bytes::le32(a, from);
        let a2 = bytes::patched(a, from, bytes::bytes32(block + first));
        let end = moved_packs(a, total, header_size, first, index, at)->Ok_0;
        assert(a2.len() == a.len());
        lemma_moved_packs(a2, total, header_size, first, index + count, next);
        bytes::lemma_bytes32(block + first);
        let patch = bytes::bytes32(block + first);
        assert(a2[from] == patch[0] && a2[from + 1] == patch[1]);
        assert(a2[from + 2] == patch[2] && a2[from + 3] == patch[3]);
        assert(bytes::le32(b, from) == bytes::le32(patch, 0));
        assert(bytes::le32(c, from) == block);
        let last = bytes::bytes32(block + first + second);
        let b2 = bytes::patched(b, from, last);
        let c2 = bytes::patched(c, from, last);
        assert(forall|k: int| at <= k < from ==> a2[k] == a[k]);
        lemma_pack_moves_add(
            a2,
            b2,
            c2,
            total,
            header_size,
            first,
            second,
            index + count,
            next,
        );
    }
}

/// Moving indexes twice is moving them once by the sum.
pub proof fn law_moves_add_up(
    metadata: Seq<u8>,
    header_size: int,
    total: int,
    compact: bool,
    first: int,
    second: int,
)
    requires
        compact ==> 8 + packs_len(total, header_size, 0) <= metadata.len(),
        !compact ==> metadata.len() >= 16,
        0 <= first,
        0 <= second,
        relocated(metadata, header_size, total, compact, first) is Ok,
        relocated(
            relocated(metadata, header_size, total, compact, first)->Ok_0,
            header_size,
            total,
            compact,
            second,
        ) is Ok,
    ensures
        relocated(metadata, header_size, total, compact, first + second) == relocated(
            relocated(metadata, header_size, total, compact, first)->Ok_0,
            header_size,
            total,
            compact,
            second,
        ),
{
    let once = relocated(metadata, header_size, total, compact, first)->Ok_0;
    if compact {
        lemma_moved_packs(metadata, total, header_size, first, 0, 8);
        lemma_pack_moves_add(
            metadata,
            once,
            metadata,
            total,
            header_size,
            first,
            second,
            0,
            8,
        );
    } else {
        let n = (metadata.len() - 16) / 8;
        lemma_moved_records(metadata, first, n);
        lemma_moved_records(once, second, n);
        lemma_moves_add(metadata, first, second, n, n);
        let twice = moved(once, second, n)->Ok_0;
        let at = 16 + 8 * n;
        assert(twice.take(at) + metadata.skip(at) =~= twice);
    }
}

proof fn lemma_unmoved_records(metadata: Seq<u8>, n: int)
    requires
        0 <= n,
        16 + 8 * n <= metadata.len(),
    ensures
        moved(metadata, 0, n) == Ok::<Seq<u8>, IndexError>(metadata),
    decreases n,
{
    if n > 0 {
        lemma_unmoved_records(metadata, n - 1);
        lemma_same_block(metadata, 20 + 8 * (n - 1));
    }
}

/// A block that is written over itself changes nothing.
proof fn lemma_same_block(s: Seq<u8>, at: int)
    requires
        0 <= at,
        at + 4 <= s.len(),
    ensures
        bytes::patched(s, at, bytes::bytes32(bytes::le32(s, at))) == s,
        bytes::le32(s, at) <= 0xffff_ffff,
{
    let patch = bytes::bytes32(bytes::le32(s, at));
    lemma_le32_same(s, at, bytes::le32(s, at));
    assert forall|k: int| 0 <= k < 4 implies s[at + k] == #[trigger] patch[k] by {
        assert(s.subrange(at, at + 4)[k] == s[at + k]);
    }
    assert(bytes::patched(s, at, patch) =~= s);
}

proof fn lemma_unmoved_packs(
    metadata: Seq<u8>,
    total: int,
    header_size: int,
    index: int,
    at: int,
)
    requires
        8 <= at,
        at + packs_len(total, header_size, index) <= metadata.len(),
    ensures
        moved_packs(metadata, total, header_size, 0, index, at) == if at + packs_len(
            total,
            header_size,
            index,
        ) == metadata.len() {
            Ok::<Seq<u8>, IndexError>(metadata)
        } else {
            Err::<Seq<u8>, IndexError>(IndexError::InvalidLength)
        },
    decreases
            if index < total {
                total - index
            } else {
                0
            },
{
    if index < total {
        let count = pack_count(total, header_size, index);
        lemma_pack_count(total, header_size, index);
        lemma_packs_len(total, header_size, index + count);
        let next = at + pack_size(count);
        lemma_same_block(metadata, next - 4);
        lemma_unmoved_packs(metadata, total, header_size, index + count, next);
    }
}

/// Moving indexes by no block leaves every byte as it is. Compact indexes that
/// have another length than their number asks for are refused all the same.
pub proof fn law_no_move_changes_nothing(
    metadata: Seq<u8>,
    header_size: int,
    total: int,
    compact: bool,
)
    requires
        compact ==> 8 + packs_len(total, header_size, 0) <= metadata.len(),
        !compact ==> metadata.len() >= 16,
    ensures
        relocated(metadata, header_size, total, compact, 0) == if compact && 8 + packs_len(
            total,
            header_size,
            0,
        ) != metadata.len() {
            Err::<Seq<u8>, IndexError>(IndexError::InvalidLength)
        } else {
            Ok::<Seq<u8>, IndexError>(metadata)
        },
{
    if compact {
        lemma_unmoved_packs(metadata, total, header_size, 0, 8);
    } else {
        lemma_unmoved_records(metadata, (metadata.len() - 16) / 8);
    }
}

/// Moving indexes never changes their length.
pub proof fn law_moves_keep_the_length(
    metadata: Seq<u8>,
    header_size: int,
    total: int,
    compact: bool,
    shift: int,
)
    requires
        compact ==> 8 + packs_len(total, header_size, 0) <= metadata.len(),
        !compact ==> metadata.len() >= 16,
        0 <= shift,
        relocated(metadata, header_size, total, compact, shift) is Ok,
    ensures
        relocated(metadata, header_size, total, compact, shift)->Ok_0.len() == metadata.len(),
{
    if compact {
        lemma_moved_packs(metadata, total, header_size, shift, 0, 8);
    } else {
        lemma_moved(metadata, shift, (metadata.len() - 16) / 8);
    }
}

} // verus!
