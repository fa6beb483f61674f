//! The two banks of an OEMINFO image: which blocks are kept, where the second
//! bank starts, and which generation of an item is the active one.

use vstd::prelude::*;

use crate::oeminfo::header::{
    BlockHeader, OemInfoLayout, OEMINFO_STANDARD_ALIGNMENT, OEMINFO_STANDARD_HEADER_SIZE,
};

verus! {

const MIN_INFERRED_REGION_SIZE: usize = 0x10_0000;

#[derive(Debug, Clone, Copy, PartialEq, Eq, Structural)]
pub enum OemInfoRegion {
    A,
    B,
    Unknown,
}

impl OemInfoRegion {
    /// The name under which a region is listed.
    pub open spec fn listed(self) -> Seq<char> {
        match self {
            OemInfoRegion::A => "A"@,
            OemInfoRegion::B => "B"@,
            OemInfoRegion::Unknown => "Unknown"@,
        }
    }

    pub fn name(self) -> (name: &'static str)
        ensures
            name@ == self.listed(),
    {
        match self {
            OemInfoRegion::A => "A",
            OemInfoRegion::B => "B",
            OemInfoRegion::Unknown => "Unknown",
        }
    }
}

/// The least multiple of `alignment` from `value` on, or the largest machine
/// integer where that would not fit.
pub open spec fn aligned_up(value: int, alignment: int) -> int {
    if value + alignment - 1 > usize::MAX {
        usize::MAX as int
    } else {
        (value + alignment - 1) / alignment * alignment
    }
}

pub fn align_up(value: usize, alignment: usize) -> (aligned: usize)
    requires
        alignment > 0,
    ensures
        aligned == aligned_up(value as int, alignment as int),
        aligned >= value,
        value + alignment - 1 <= usize::MAX ==> aligned % alignment == 0 && aligned - value
            < alignment,
{
    match value.checked_add(alignment - 1) {
        Some(rounded) => {
            let units: usize = rounded / alignment;
            proof {
                vstd::arithmetic::div_mod::lemma_fundamental_div_mod(
                    rounded as int,
                    alignment as int,
                );
                vstd::arithmetic::div_mod::lemma_mod_bound(rounded as int, alignment as int);
                vstd::arithmetic::mul::lemma_mul_is_commutative(units as int, alignment as int);
                vstd::arithmetic::div_mod::lemma_mod_multiples_basic(
                    units as int,
                    alignment as int,
                );
            }
            units * alignment
        },
        None => usize::MAX,
    }
}

/// The headers that are kept, in order: each one that starts where the last
/// kept block has ended.
pub open spec fn kept(headers: Seq<BlockHeader>, end: int) -> Seq<BlockHeader>
    decreases headers.len(),
{
    if headers.len() == 0 {
        seq![]
    } else if headers[0].offset < end {
        kept(headers.skip(1), end)
    } else {
        seq![headers[0]] + kept(headers.skip(1), headers[0].end())
    }
}

/// True when each block ends before the next one starts.
pub open spec fn apart(headers: Seq<BlockHeader>) -> bool {
    forall|i: int, j: int|
        0 <= i < j < headers.len() ==> (#[trigger] headers[i]).end() <= (
        #[trigger] headers[j]).offset
}

/// True when every block lies within an image of `size` bytes.
pub open spec fn all_fit(headers: Seq<BlockHeader>, size: int) -> bool {
    forall|i: int| 0 <= i < headers.len() ==> (#[trigger] headers[i]).fits(size)
}

pub(crate) fn keep_apart(headers: &Vec<BlockHeader>, size: Ghost<int>) -> (blocks: Vec<BlockHeader>)
    requires
        all_fit(headers@, size@),
        size@ <= usize::MAX,
    ensures
        blocks@ == kept(headers@, 0),
        apart(blocks@),
        all_fit(blocks@, size@),
        headers@.len() > 0 ==> blocks@.len() > 0,
        blocks@.len() <= headers@.len(),
{
    let mut blocks: Vec<BlockHeader> = Vec::new();
    let mut end: usize = 0;
    let mut i: usize = 0;
    assert(headers@.skip(0) == headers@);
    assert(blocks@ + kept(headers@, 0) =~= kept(headers@, 0));
    while i < headers.len()
        invariant
            i <= headers@.len(),
            all_fit(headers@, size@),
            all_fit(blocks@, size@),
            size@ <= usize::MAX,
            kept(headers@, 0) == blocks@ + kept(headers@.skip(i as int), end as int),
            apart(blocks@),
            forall|k: int| 0 <= k < blocks@.len() ==> (#[trigger] blocks@[k]).end() <= end,
            i > 0 ==> blocks@.len() > 0,
            i == 0 ==> end == 0,
            blocks@.len() <= i,
        decreases headers@.len() - i,
    {
        let header = headers[i];
        let ghost rest = headers@.skip(i as int);
        assert(header.fits(size@));
        assert(rest.skip(1) == headers@.skip(i + 1));
        if header.offset >= end {
            let ghost before = blocks@;
            blocks.push(header);
            end = header.offset + header.header_size + header.length as usize;
            assert(before + (seq![header] + kept(rest.skip(1), header.end())) =~= blocks@ + kept(
                rest.skip(1),
                header.end(),
            ));
        }
        i += 1;
    }
    assert(blocks@ + Seq::<BlockHeader>::empty() =~= blocks@);
    blocks
}

/// A block that keeps no distance to the next one is a compact one.
pub open spec fn compacted(headers: Seq<BlockHeader>) -> Seq<BlockHeader> {
    headers.map(
        |i: int, h: BlockHeader|
            if i + 1 < headers.len() && h.layout == OemInfoLayout::Standard && headers[i + 1].offset
                < aligned_up(h.offset + 0x200 + h.length, 0x1000) {
                BlockHeader { layout: OemInfoLayout::StandardCompact, ..h }
            } else {
                h
            },
    )
}

/// Compacting keeps every field but the layout, and the size of the header.
pub proof fn lemma_compacted(headers: Seq<BlockHeader>, size: int)
    requires
        apart(headers),
        all_fit(headers, size),
    ensures
        compacted(headers).len() == headers.len(),
        apart(compacted(headers)),
        all_fit(compacted(headers), size),
        forall|i: int|
            #![trigger compacted(headers)[i]]
            0 <= i < headers.len() ==> compacted(headers)[i].offset == headers[i].offset
                && compacted(headers)[i].id == headers[i].id && compacted(headers)[i].length
                == headers[i].length && compacted(headers)[i].header_size
                == headers[i].header_size && compacted(headers)[i].age == headers[i].age,
{
    let c = compacted(headers);
    assert forall|i: int| 0 <= i < headers.len() implies (#[trigger] c[i]).fits(size) && c[i].offset
        == headers[i].offset && c[i].end() == headers[i].end() by {
        assert(headers[i].fits(size));
    }
    assert forall|i: int, j: int| 0 <= i < j < c.len() implies (#[trigger] c[i]).end() <= (
    #[trigger] c[j]).offset by {
        assert(headers[i].end() <= headers[j].offset);
    }
}

pub(crate) fn resolve_compact_layouts(headers: &Vec<BlockHeader>, size: Ghost<int>) -> (blocks: Vec<
    BlockHeader,
>)
    requires
        apart(headers@),
        all_fit(headers@, size@),
        size@ <= usize::MAX,
    ensures
        blocks@ == compacted(headers@),
{
    let mut blocks: Vec<BlockHeader> = Vec::new();
    let mut i: usize = 0;
    while i < headers.len()
        invariant
            i <= headers@.len(),
            all_fit(headers@, size@),
            size@ <= usize::MAX,
            blocks@ == compacted(headers@).take(i as int),
        decreases headers@.len() - i,
    {
        let mut header = headers[i];
        assert(header.fits(size@));
        if i + 1 < headers.len() && header.layout == OemInfoLayout::Standard {
            let end: usize = header.offset + OEMINFO_STANDARD_HEADER_SIZE + header.length as usize;
            if headers[i + 1].offset < align_up(end, OEMINFO_STANDARD_ALIGNMENT) {
                header.layout = OemInfoLayout::StandardCompact;
            }
        }
        blocks.push(header);
        i += 1;
        assert(blocks@ =~= compacted(headers@).take(i as int));
    }
    assert(compacted(headers@).take(i as int) =~= compacted(headers@));
    blocks
}

/// The key under which the copies of an item are found. The field after the id
/// is a real sub-index in reused blocks only; in standard blocks it counts the
/// 512-byte units of the payload, which change from one generation to the next.
pub open spec fn copy_key(h: BlockHeader) -> (u32, u32) {
    match h.layout {
        OemInfoLayout::Reused => (h.id, h.sub_id),
        OemInfoLayout::Standard | OemInfoLayout::StandardCompact => (h.id, 0),
    }
}

fn key_of(h: &BlockHeader) -> (key: (u32, u32))
    ensures
        key == copy_key(*h),
{
    match h.layout {
        OemInfoLayout::Reused => (h.id, h.sub_id),
        OemInfoLayout::Standard | OemInfoLayout::StandardCompact => (h.id, 0),
    }
}

// ---------------------------------------------------------------------------
// The size of a bank
// ---------------------------------------------------------------------------

/// Half of the file, rounded up.
pub open spec fn half(file_size: int) -> int {
    (file_size + 1) / 2
}

/// The least distance that two copies of an item may have.
pub open spec fn least_distance(file_size: int) -> int {
    if half(file_size) / 2 > 0x10_0000 {
        half(file_size) / 2
    } else {
        0x10_0000
    }
}

/// True when `d` may be the distance of the banks of a file.
pub open spec fn may_part_banks(file_size: int, d: int) -> bool {
    d >= least_distance(file_size) && d % 0x1000 == 0 && d * 2 <= file_size
}

/// The distances that may part the banks, of one block to the copies before it.
pub open spec fn distances_to(file_size: int, headers: Seq<BlockHeader>, h: BlockHeader) -> Seq<int>
    decreases headers.len(),
{
    if headers.len() == 0 {
        seq![]
    } else {
        let left = headers.last();
        let before = distances_to(file_size, headers.drop_last(), h);
        let d = h.offset - left.offset;
        if copy_key(left) == copy_key(h) && may_part_banks(file_size, d) {
            before.push(d)
        } else {
            before
        }
    }
}

/// The distances that may part the banks, of every pair of copies.
pub open spec fn distances(file_size: int, headers: Seq<BlockHeader>) -> Seq<int>
    decreases headers.len(),
{
    if headers.len() == 0 {
        seq![]
    } else {
        distances(file_size, headers.drop_last()) + distances_to(
            file_size,
            headers.drop_last(),
            headers.last(),
        )
    }
}

/// How often `d` occurs.
pub open spec fn occurrences(list: Seq<int>, d: int) -> nat
    decreases list.len(),
{
    if list.len() == 0 {
        0
    } else {
        occurrences(list.drop_last(), d) + if list.last() == d {
            1nat
        } else {
            0nat
        }
    }
}

/// How far apart two sizes are.
pub open spec fn gap(a: int, b: int) -> int {
    if a < b {
        b - a
    } else {
        a - b
    }
}

/// True when distance `a` is preferred to `b`: the one that occurs more often,
/// then the one closer to half of the file, then the larger one.
pub open spec fn preferred(file_size: int, list: Seq<int>, a: int, b: int) -> bool {
    let times_a = occurrences(list, a);
    let times_b = occurrences(list, b);
    let gap_a = gap(a, half(file_size));
    let gap_b = gap(b, half(file_size));
    times_a > times_b || (times_a == times_b && (gap_a < gap_b || (gap_a == gap_b && a > b)))
}

/// True when `size` is the size of the first bank: the preferred one of the
/// distances that occur at least twice, or half of the file where none does.
pub open spec fn is_region_size(file_size: int, headers: Seq<BlockHeader>, size: int) -> bool {
    let list = distances(file_size, headers);
    if exists|d: int| #[trigger] occurrences(list, d) >= 2 {
        occurrences(list, size) >= 2 && forall|d: int|
            #[trigger] occurrences(list, d) >= 2 ==> d == size || preferred(
                file_size,
                list,
                size,
                d,
            )
    } else {
        size == half(file_size)
    }
}

/// The sizes of a list of machine integers.
pub open spec fn sizes(list: Seq<usize>) -> Seq<int> {
    list.map_values(|d: usize| d as int)
}

fn count_of(list: &Vec<usize>, d: usize) -> (count: usize)
    ensures
        count == occurrences(sizes(list@), d as int),
{
    let mut count: usize = 0;
    let mut i: usize = 0;
    assert(sizes(list@).take(0) =~= Seq::<int>::empty());
    while i < list.len()
        invariant
            count <= i <= list@.len(),
            count == occurrences(sizes(list@).take(i as int), d as int),
        decreases list@.len() - i,
    {
        if list[i] == d {
            count += 1;
        }
        i += 1;
        assert(sizes(list@).take(i as int).drop_last() =~= sizes(list@).take(i - 1));
    }
    assert(sizes(list@).take(i as int) =~= sizes(list@));
    count
}

fn collect_distances(file_size: usize, headers: &Vec<BlockHeader>) -> (list: Vec<usize>)
    requires
        apart(headers@),
    ensures
        sizes(list@) == distances(file_size as int, headers@),
{
    let half_size: usize = file_size / 2 + file_size % 2;
    let minimum: usize = if half_size / 2 > MIN_INFERRED_REGION_SIZE {
        half_size / 2
    } else {
        MIN_INFERRED_REGION_SIZE
    };
    let mut list: Vec<usize> = Vec::new();
    let mut right: usize = 0;
    assert(headers@.take(0) =~= Seq::<BlockHeader>::empty());
    assert(sizes(list@) =~= Seq::<int>::empty());
    while right < headers.len()
        invariant
            right <= headers@.len(),
            apart(headers@),
            minimum == least_distance(file_size as int),
            sizes(list@) == distances(file_size as int, headers@.take(right as int)),
        decreases headers@.len() - right,
    {
        let ghost before = sizes(list@);
        let ghost prefix = headers@.take(right as int);
        let mut left: usize = 0;
        assert(prefix.take(0) =~= Seq::<BlockHeader>::empty());
        assert(before + Seq::<int>::empty() =~= before);
        while left < right
            invariant
                left <= right < headers@.len(),
                apart(headers@),
                minimum == least_distance(file_size as int),
                prefix == headers@.take(right as int),
                sizes(list@) == before + distances_to(
                    file_size as int,
                    prefix.take(left as int),
                    headers@[right as int],
                ),
            decreases right - left,
        {
            let ghost old_list = list@;
            assert(headers@[left as int].end() <= headers@[right as int].offset);
            let distance: usize = headers[right].offset - headers[left].offset;
            let ghost now = prefix.take(left + 1);
            assert(now.drop_last() =~= prefix.take(left as int));
            assert(now.last() == headers@[left as int]);
            let left_key = key_of(&headers[left]);
            let right_key = key_of(&headers[right]);
            if left_key.0 == right_key.0 && left_key.1 == right_key.1 && distance >= minimum
                && distance % OEMINFO_STANDARD_ALIGNMENT == 0 && distance <= file_size / 2 {
                list.push(distance);
                assert(sizes(list@) =~= sizes(old_list).push(distance as int));
                assert(sizes(list@) =~= before + distances_to(
                    file_size as int,
                    now,
                    headers@[right as int],
                ));
            }
            left += 1;
        }
        assert(prefix.take(right as int) =~= prefix);
        right += 1;
        assert(headers@.take(right as int).drop_last() =~= prefix);
    }
    assert(headers@.take(right as int) =~= headers@);
    list
}

/// A distance that occurs is one of the list.
proof fn lemma_occurs(list: Seq<int>, d: int)
    ensures
        occurrences(list, d) > 0 <==> list.contains(d),
    decreases list.len(),
{
    if list.len() > 0 {
        let rest = list.drop_last();
        lemma_occurs(rest, d);
        if rest.contains(d) {
            let i = choose|i: int| 0 <= i < rest.len() && rest[i] == d;
            assert(list[i] == d);
        }
        if list.last() == d {
            assert(list[list.len() - 1] == d);
        }
        if list.contains(d) && list.last() != d {
            let i = choose|i: int| 0 <= i < list.len() && list[i] == d;
            assert(rest[i] == d);
        }
    }
}

proof fn lemma_distances_to(file_size: int, headers: Seq<BlockHeader>, h: BlockHeader)
    ensures
        forall|k: int|
            0 <= k < distances_to(file_size, headers, h).len() ==> may_part_banks(
                file_size,
                #[trigger] distances_to(file_size, headers, h)[k],
            ),
    decreases headers.len(),
{
    if headers.len() > 0 {
        lemma_distances_to(file_size, headers.drop_last(), h);
        let before = distances_to(file_size, headers.drop_last(), h);
        let all = distances_to(file_size, headers, h);
        assert forall|k: int| 0 <= k < all.len() implies may_part_banks(
            file_size,
            #[trigger] all[k],
        ) by {
            if k < before.len() {
                assert(all[k] == before[k]);
            }
        }
    }
}

proof fn lemma_distances(file_size: int, headers: Seq<BlockHeader>)
    ensures
        forall|k: int|
            0 <= k < distances(file_size, headers).len() ==> may_part_banks(
                file_size,
                #[trigger] distances(file_size, headers)[k],
            ),
    decreases headers.len(),
{
    if headers.len() > 0 {
        let rest = headers.drop_last();
        lemma_distances(file_size, rest);
        lemma_distances_to(file_size, rest, headers.last());
        let front = distances(file_size, rest);
        let back = distances_to(file_size, rest, headers.last());
        let all = distances(file_size, headers);
        assert forall|k: int| 0 <= k < all.len() implies may_part_banks(
            file_size,
            #[trigger] all[k],
        ) by {
            if k < front.len() {
                assert(all[k] == front[k]);
            } else {
                assert(all[k] == back[k - front.len()]);
            }
        }
    }
}

/// A bank is not empty, and lies within the file.
pub proof fn lemma_region_size(file_size: int, headers: Seq<BlockHeader>, size: int)
    requires
        file_size > 0,
        is_region_size(file_size, headers, size),
    ensures
        0 < size <= file_size,
{
    let list = distances(file_size, headers);
    if exists|d: int| #[trigger] occurrences(list, d) >= 2 {
        lemma_occurs(list, size);
        lemma_distances(file_size, headers);
        let k = choose|k: int| 0 <= k < list.len() && list[k] == size;
        assert(may_part_banks(file_size, list[k]));
    }
}

pub fn infer_region_size(file_size: usize, headers: &Vec<BlockHeader>) -> (size: usize)
    requires
        apart(headers@),
    ensures
        is_region_size(file_size as int, headers@, size as int),
{
    let half_size: usize = file_size / 2 + file_size % 2;
    let list = collect_distances(file_size, headers);
    let ghost all = distances(file_size as int, headers@);
    let mut found = false;
    let mut best: usize = half_size;
    let mut best_count: usize = 0;
    let mut i: usize = 0;
    while i < list.len()
        invariant
            i <= list@.len(),
            half_size == half(file_size as int),
            sizes(list@) == all,
            !found ==> best == half_size && forall|k: int|
                0 <= k < i ==> #[trigger] occurrences(all, all[k]) < 2,
            found ==> {
                &&& best_count == occurrences(all, best as int)
                &&& best_count >= 2
                &&& forall|k: int|
                    0 <= k < i && #[trigger] occurrences(all, all[k]) >= 2 ==> all[k] == best
                        || preferred(file_size as int, all, best as int, all[k])
            },
        decreases list@.len() - i,
    {
        let distance: usize = list[i];
        assert(all[i as int] == distance);
        let count: usize = count_of(&list, distance);
        if count >= 2 {
            let new_gap: usize = if distance < half_size {
                half_size - distance
            } else {
                distance - half_size
            };
            let old_gap: usize = if best < half_size {
                half_size - best
            } else {
                best - half_size
            };
            if !found || count > best_count || (count == best_count && (new_gap < old_gap || (
            new_gap == old_gap && distance > best))) {
                found = true;
                best = distance;
                best_count = count;
            }
        }
        i += 1;
    }
    proof {
        if found {
            assert(occurrences(all, best as int) >= 2);
            assert forall|d: int| #[trigger] occurrences(all, d) >= 2 implies d == best
                || preferred(file_size as int, all, best as int, d) by {
                lemma_occurs(all, d);
                let k = choose|k: int| 0 <= k < all.len() && all[k] == d;
                assert(occurrences(all, all[k]) >= 2);
            }
        } else {
            assert forall|d: int| #[trigger] occurrences(all, d) < 2 by {
                lemma_occurs(all, d);
                if occurrences(all, d) > 0 {
                    let k = choose|k: int| 0 <= k < all.len() && all[k] == d;
                    assert(occurrences(all, all[k]) < 2);
                }
            }
        }
    }
    best
}

// ---------------------------------------------------------------------------
// Regions and active copies
// ---------------------------------------------------------------------------

/// Twice a size, or the largest machine integer where that would not fit.
pub open spec fn doubled(size: int) -> int {
    if 2 * size > usize::MAX {
        usize::MAX as int
    } else {
        2 * size
    }
}

pub fn double(size: usize) -> (twice: usize)
    ensures
        twice == doubled(size as int),
{
    match size.checked_mul(2) {
        Some(twice) => twice,
        None => usize::MAX,
    }
}

/// The bank that holds a block whole.
pub open spec fn region_of(h: BlockHeader, region_size: int) -> OemInfoRegion {
    if h.offset < region_size && h.end() <= region_size {
        OemInfoRegion::A
    } else if h.offset >= region_size && h.end() <= doubled(region_size) {
        OemInfoRegion::B
    } else {
        OemInfoRegion::Unknown
    }
}

pub(crate) fn find_region(h: &BlockHeader, region_size: usize, size: Ghost<int>) -> (region: OemInfoRegion)
    requires
        h.fits(size@),
        size@ <= usize::MAX,
    ensures
        region == region_of(*h, region_size as int),
{
    let end: usize = h.offset + h.header_size + h.length as usize;
    if h.offset < region_size && end <= region_size {
        OemInfoRegion::A
    } else if h.offset >= region_size && end <= double(region_size) {
        OemInfoRegion::B
    } else {
        OemInfoRegion::Unknown
    }
}

/// True when block `a` is a newer copy than `b`: of a higher age, or of the
/// same age and further to the front.
pub open spec fn newer(a: BlockHeader, b: BlockHeader) -> bool {
    a.age > b.age || (a.age == b.age && a.offset < b.offset)
}

/// True when two blocks are copies of one item, each whole in a bank.
pub open spec fn are_copies(a: BlockHeader, b: BlockHeader, region_size: int) -> bool {
    &&& copy_key(a) == copy_key(b)
    &&& region_of(a, region_size) != OemInfoRegion::Unknown
    &&& region_of(b, region_size) != OemInfoRegion::Unknown
}

/// True when no copy of block `i` is newer. A block outside the banks has none.
pub open spec fn is_active(headers: Seq<BlockHeader>, region_size: int, i: int) -> bool {
    forall|j: int|
        0 <= j < headers.len() && are_copies(
            headers[i],
            #[trigger] headers[j],
            region_size,
        ) ==> !newer(headers[j], headers[i])
}

pub(crate) fn find_active(
    headers: &Vec<BlockHeader>,
    region_size: usize,
    i: usize,
    size: Ghost<int>,
) -> (active: bool)
    requires
        i < headers@.len(),
        all_fit(headers@, size@),
        size@ <= usize::MAX,
    ensures
        active == is_active(headers@, region_size as int, i as int),
{
    let here = headers[i];
    assert(headers@[i as int].fits(size@));
    let own_region = find_region(&here, region_size, size);
    if own_region == OemInfoRegion::Unknown {
        return true;
    }
    let own_key = key_of(&here);
    let mut j: usize = 0;
    while j < headers.len()
        invariant
            j <= headers@.len(),
            i < headers@.len(),
            here == headers@[i as int],
            all_fit(headers@, size@),
            size@ <= usize::MAX,
            own_key == copy_key(here),
            own_region == region_of(here, region_size as int),
            own_region != OemInfoRegion::Unknown,
            forall|k: int|
                0 <= k < j && are_copies(here, #[trigger] headers@[k], region_size as int)
                    ==> !newer(headers@[k], here),
        decreases headers@.len() - j,
    {
        let other = headers[j];
        assert(headers@[j as int].fits(size@));
        let key = key_of(&other);
        let region = find_region(&other, region_size, size);
        if key.0 == own_key.0 && key.1 == own_key.1 && region != OemInfoRegion::Unknown && (
        other.age > here.age || (other.age == here.age && other.offset < here.offset)) {
            assert(are_copies(here, headers@[j as int], region_size as int));
            return false;
        }
        j += 1;
    }
    true
}

/// Of the copies of an item exactly one is active: there is an active copy of
/// every block that lies in a bank, and any two active copies are the same.
pub proof fn law_one_active_copy(headers: Seq<BlockHeader>, region_size: int, i: int)
    requires
        0 <= i < headers.len(),
        apart(headers),
        forall|k: int| 0 <= k < headers.len() ==> (#[trigger] headers[k]).length > 0,
        region_of(headers[i], region_size) != OemInfoRegion::Unknown,
    ensures
        exists|k: int|
            0 <= k < headers.len() && are_copies(headers[i], #[trigger] headers[k], region_size)
                && is_active(headers, region_size, k),
        forall|j: int, k: int|
            0 <= j < headers.len() && 0 <= k < headers.len() && are_copies(
                headers[i],
                #[trigger] headers[j],
                region_size,
            ) && are_copies(headers[i], #[trigger] headers[k], region_size) && is_active(
                headers,
                region_size,
                j,
            ) && is_active(headers, region_size, k) ==> j == k,
{
    let k = newest_below(headers, region_size, i, headers.len() as int);
    assert(are_copies(headers[i], headers[k], region_size));
    assert forall|j: int|
        0 <= j < headers.len() && are_copies(
            headers[k],
            #[trigger] headers[j],
            region_size,
        ) implies !newer(headers[j], headers[k]) by {
        assert(are_copies(headers[i], headers[j], region_size));
    }
    assert(is_active(headers, region_size, k));
    assert forall|j: int, m: int|
        0 <= j < headers.len() && 0 <= m < headers.len() && are_copies(
            headers[i],
            #[trigger] headers[j],
            region_size,
        ) && are_copies(headers[i], #[trigger] headers[m], region_size) && is_active(
            headers,
            region_size,
            j,
        ) && is_active(headers, region_size, m) implies j == m by {
        assert(are_copies(headers[j], headers[m], region_size));
        assert(are_copies(headers[m], headers[j], region_size));
        if j < m {
            assert(headers[j].end() <= headers[m].offset);
        } else if m < j {
            assert(headers[m].end() <= headers[j].offset);
        }
    }
}

/// The newest of the copies of block `i` among the first `n` blocks and itself.
proof fn newest_below(headers: Seq<BlockHeader>, region_size: int, i: int, n: int) -> (k: int)
    requires
        0 <= i < headers.len(),
        0 <= n <= headers.len(),
        region_of(headers[i], region_size) != OemInfoRegion::Unknown,
    ensures
        0 <= k < headers.len(),
        are_copies(headers[i], headers[k], region_size),
        forall|j: int|
            0 <= j < n && are_copies(headers[i], #[trigger] headers[j], region_size) ==> !newer(
                headers[j],
                headers[k],
            ),
    decreases n,
{
    if n == 0 {
        i
    } else {
        let before = newest_below(headers, region_size, i, n - 1);
        if are_copies(headers[i], headers[n - 1], region_size) && newer(
            headers[n - 1],
            headers[before],
        ) {
            n - 1
        } else {
            before
        }
    }
}

// ---------------------------------------------------------------------------
// What banks hold
// ---------------------------------------------------------------------------

/// Aligning gives the least multiple that is not below the value.
pub proof fn law_aligned_values_are_least(value: int, alignment: int)
    requires
        0 <= value,
        0 < alignment,
        value + alignment - 1 <= usize::MAX,
    ensures
        aligned_up(value, alignment) % alignment == 0,
        value <= aligned_up(value, alignment) < value + alignment,
{
    let n = value + alignment - 1;
    let q = n / alignment;
    assert(q * alignment <= n < q * alignment + alignment && (q * alignment) % alignment == 0)
        by (nonlinear_arith)
        requires
            alignment > 0,
            q == n / alignment,
    ;
}

/// Blocks that overlap the one kept before them are left out, and no others: what
/// is kept comes in order and apart, and every block is kept or starts within one
/// that is.
pub proof fn law_overlapping_blocks_are_left_out(headers: Seq<BlockHeader>, end: int)
    ensures
        ({
            let left = kept(headers, end);
            &&& forall|k: int| 0 <= k < left.len() ==> headers.contains(#[trigger] left[k])
            &&& forall|k: int| 0 <= k < left.len() ==> (#[trigger] left[k]).offset >= end
            &&& forall|i: int|
                0 <= i < headers.len() ==> left.contains(#[trigger] headers[i]) || headers[i].offset
                    < end || exists|k: int|
                    0 <= k < left.len() && headers[i].offset < (#[trigger] left[k]).offset
                        + left[k].header_size + left[k].length
        }),
    decreases headers.len(),
{
    if headers.len() > 0 {
        let rest = headers.skip(1);
        let left = kept(headers, end);
        let next = if headers[0].offset < end {
            end
        } else {
            headers[0].end()
        };
        let after = kept(rest, next);
        law_overlapping_blocks_are_left_out(rest, next);
        assert forall|k: int| 0 <= k < after.len() implies headers.contains(#[trigger] after[k]) by {
            let i = choose|i: int| 0 <= i < rest.len() && rest[i] == after[k];
            assert(headers[i + 1] == after[k]);
        }
        assert forall|k: int| 0 <= k < left.len() implies headers.contains(#[trigger] left[k])
            && left[k].offset >= end by {
            if headers[0].offset < end {
                assert(left[k] == after[k]);
            } else if k > 0 {
                assert(left[k] == after[k - 1]);
            } else {
                assert(left[k] == headers[0]);
            }
        }
        let shift: int = if headers[0].offset < end {
            0
        } else {
            1
        };
        assert(forall|k: int| 0 <= k < after.len() ==> #[trigger] after[k] == left[k + shift]);
        assert forall|i: int| 0 <= i < headers.len() implies left.contains(#[trigger] headers[i])
            || headers[i].offset < end || exists|k: int|
            0 <= k < left.len() && headers[i].offset < (#[trigger] left[k]).offset
                + left[k].header_size + left[k].length by {
            if i == 0 {
                if headers[0].offset >= end {
                    assert(left[0] == headers[0]);
                }
            } else {
                let h = rest[i - 1];
                assert(h == headers[i]);
                if after.contains(h) {
                    let k = choose|k: int| 0 <= k < after.len() && after[k] == h;
                    assert(left[k + shift] == h);
                } else if h.offset < next {
                    if headers[0].offset >= end {
                        assert(left[0] == headers[0]);
                    }
                } else {
                    let k = choose|k: int|
                        0 <= k < after.len() && h.offset < (#[trigger] after[k]).offset
                            + after[k].header_size + after[k].length;
                    assert(left[k + shift] == after[k]);
                }
            }
        }
    }
}

/// A standard block is called compact where the next block starts before the next
/// whole 4096 bytes; every other block stays as it is, and so do all other fields.
pub proof fn law_close_blocks_are_compact(headers: Seq<BlockHeader>, i: int)
    requires
        0 <= i < headers.len(),
        headers[i].header_size == headers[i].layout.header_len(),
        headers[i].end() + 4095 <= usize::MAX,
    ensures
        compacted(headers).len() == headers.len(),
        ({
            let h = headers[i];
            let c = compacted(headers)[i];
            let next = (h.offset + h.header_size + h.length + 4095) / 4096 * 4096;
            let close = i + 1 < headers.len() && headers[i + 1].offset < next;
            &&& c.layout == (if h.layout == OemInfoLayout::Standard && close {
                OemInfoLayout::StandardCompact
            } else {
                h.layout
            })
            &&& c == (BlockHeader { layout: c.layout, ..h })
        }),
{
}

/// Two blocks are of one item where their ids are the same and, in reused blocks,
/// their sub-indexes too; a standard block counts as one with sub-index 0.
pub proof fn law_copies_share_their_item(a: BlockHeader, b: BlockHeader)
    ensures
        a.layout != OemInfoLayout::Reused && b.layout != OemInfoLayout::Reused ==> (copy_key(a)
            == copy_key(b) <==> a.id == b.id),
        a.layout == OemInfoLayout::Reused && b.layout == OemInfoLayout::Reused ==> (copy_key(a)
            == copy_key(b) <==> a.id == b.id && a.sub_id == b.sub_id),
        a.layout == OemInfoLayout::Reused && b.layout != OemInfoLayout::Reused ==> (copy_key(a)
            == copy_key(b) <==> a.id == b.id && a.sub_id == 0),
{
}

/// A block is in the first bank where it ends within it, in the second where it
/// starts behind the first and ends within twice its size, and else in neither.
pub proof fn law_banks_hold_whole_blocks(h: BlockHeader, region_size: int)
    requires
        0 <= region_size,
        2 * region_size <= usize::MAX,
        h.length > 0,
    ensures
        ({
            let end = h.offset + h.header_size + h.length;
            &&& region_of(h, region_size) == OemInfoRegion::A <==> end <= region_size
            &&& region_of(h, region_size) == OemInfoRegion::B <==> region_size <= h.offset && end
                <= 2 * region_size
        }),
{
}

/// No copy of an active block has a higher age, and one of the same age stands
/// behind it; a block that is not active has a copy that is newer so.
pub proof fn law_active_copies_are_newest(
    headers: Seq<BlockHeader>,
    region_size: int,
    i: int,
    j: int,
)
    requires
        0 <= i < headers.len(),
        0 <= j < headers.len(),
        are_copies(headers[i], headers[j], region_size),
    ensures
        is_active(headers, region_size, i) ==> headers[j].age < headers[i].age || (headers[j].age
            == headers[i].age && headers[j].offset >= headers[i].offset),
        !is_active(headers, region_size, i) ==> exists|k: int|
            0 <= k < headers.len() && copy_key(#[trigger] headers[k]) == copy_key(headers[i]) && (
            headers[k].age > headers[i].age || (headers[k].age == headers[i].age
                && headers[k].offset < headers[i].offset)),
{
    if !is_active(headers, region_size, i) {
        let k = choose|k: int|
            0 <= k < headers.len() && are_copies(headers[i], #[trigger] headers[k], region_size)
                && newer(headers[k], headers[i]);
        assert(copy_key(headers[k]) == copy_key(headers[i]));
    }
}

/// A distance may part the banks where two copies of an item have it, it is a
/// multiple of 4096, not above half of the file, and neither below a mebibyte nor
/// below a quarter of the file.
pub proof fn law_distances_are_those_of_copies(file_size: int, headers: Seq<BlockHeader>, d: int)
    requires
        0 <= file_size,
    ensures
        distances(file_size, headers).contains(d) <==> {
            &&& d % 4096 == 0 && 2 * d <= file_size
            &&& d >= 1_048_576 && d >= (file_size + 1) / 2 / 2
            &&& exists|i: int, j: int|
                0 <= i < j < headers.len() && copy_key(#[trigger] headers[i]) == copy_key(
                    #[trigger] headers[j],
                ) && headers[j].offset - headers[i].offset == d
        },
    decreases headers.len(),
{
    if headers.len() > 0 {
        let less = headers.drop_last();
        let h = headers.last();
        let before = distances(file_size, less);
        let new = distances_to(file_size, less, h);
        let all = distances(file_size, headers);
        law_distances_are_those_of_copies(file_size, less, d);
        lemma_new_distances(file_size, less, h, d);
        if before.contains(d) {
            let k = choose|k: int| 0 <= k < before.len() && before[k] == d;
            assert(all[k] == d);
        }
        if new.contains(d) {
            let k = choose|k: int| 0 <= k < new.len() && new[k] == d;
            assert(all[before.len() + k] == d);
            let i = choose|i: int|
                0 <= i < less.len() && copy_key(#[trigger] less[i]) == copy_key(h) && h.offset
                    - less[i].offset == d;
            assert(headers[i] == less[i] && headers[headers.len() - 1] == h);
        }
        if all.contains(d) {
            let k = choose|k: int| 0 <= k < all.len() && all[k] == d;
            if k < before.len() {
                assert(before[k] == d);
                let (i, j) = choose|i: int, j: int|
                    0 <= i < j < less.len() && copy_key(#[trigger] less[i]) == copy_key(
                        #[trigger] less[j],
                    ) && less[j].offset - less[i].offset == d;
                assert(headers[i] == less[i] && headers[j] == less[j]);
            } else {
                assert(new[k - before.len()] == d);
            }
        }
        if exists|i: int, j: int|
            0 <= i < j < headers.len() && copy_key(#[trigger] headers[i]) == copy_key(
                #[trigger] headers[j],
            ) && headers[j].offset - headers[i].offset == d {
            let (i, j) = choose|i: int, j: int|
                0 <= i < j < headers.len() && copy_key(#[trigger] headers[i]) == copy_key(
                    #[trigger] headers[j],
                ) && headers[j].offset - headers[i].offset == d;
            if j < less.len() {
                assert(less[i] == headers[i] && less[j] == headers[j]);
            } else {
                assert(less[i] == headers[i]);
            }
        }
    }
}

proof fn lemma_new_distances(file_size: int, headers: Seq<BlockHeader>, h: BlockHeader, d: int)
    ensures
        distances_to(file_size, headers, h).contains(d) <==> may_part_banks(file_size, d)
            && exists|i: int|
            0 <= i < headers.len() && copy_key(#[trigger] headers[i]) == copy_key(h) && h.offset
                - headers[i].offset == d,
    decreases headers.len(),
{
    if headers.len() > 0 {
        let less = headers.drop_last();
        let left = headers.last();
        let before = distances_to(file_size, less, h);
        let all = distances_to(file_size, headers, h);
        lemma_new_distances(file_size, less, h, d);
        if before.contains(d) {
            let k = choose|k: int| 0 <= k < before.len() && before[k] == d;
            assert(all[k] == d);
            let i = choose|i: int|
                0 <= i < less.len() && copy_key(#[trigger] less[i]) == copy_key(h) && h.offset
                    - less[i].offset == d;
            assert(headers[i] == less[i]);
        } else if all.contains(d) {
            let k = choose|k: int| 0 <= k < all.len() && all[k] == d;
            if k < before.len() {
                assert(before[k] == d);
            }
            assert(headers[headers.len() - 1] == left);
        }
        if may_part_banks(file_size, d) && exists|i: int|
            0 <= i < headers.len() && copy_key(#[trigger] headers[i]) == copy_key(h) && h.offset
                - headers[i].offset == d {
            let i = choose|i: int|
                0 <= i < headers.len() && copy_key(#[trigger] headers[i]) == copy_key(h) && h.offset
                    - headers[i].offset == d;
            if i < less.len() {
                assert(less[i] == headers[i]);
            } else {
                assert(all[all.len() - 1] == d);
            }
        }
    }
}

/// The first bank is as large as a distance that copies have at least twice, where
/// there is one: none is more frequent, and of those as frequent none is closer to
/// half of the file. Else it is half of the file, rounded up.
pub proof fn law_banks_are_measured_by_copies(
    file_size: int,
    headers: Seq<BlockHeader>,
    size: int,
    d: int,
)
    requires
        is_region_size(file_size, headers, size),
    ensures
        ({
            let list = distances(file_size, headers);
            let middle = (file_size + 1) / 2;
            let away = |n: int|
                if n < middle {
                    middle - n
                } else {
                    n - middle
                };
            if occurrences(list, d) >= 2 {
                &&& occurrences(list, size) >= 2
                &&& occurrences(list, d) <= occurrences(list, size)
                &&& occurrences(list, d) == occurrences(list, size) ==> away(size) <= away(d)
                &&& occurrences(list, d) == occurrences(list, size) && away(size) == away(d)
                    ==> size >= d
            } else {
                occurrences(list, size) >= 2 || size == middle
            }
        }),
{
}

} // verus!
