//! The data of directories: blocks of records and names.

use vstd::prelude::*;

use crate::bytes;
use crate::erofs::layout;

verus! {

#[derive(Debug)]
pub struct DirectoryEntry {
    pub name: Vec<u8>,
    pub nid: u64,
    pub file_type: u8,
}

/// The values of a directory entry.
#[verifier::ext_equal]
pub struct EntryModel {
    pub name: Seq<u8>,
    pub nid: u64,
    pub file_type: u8,
}

impl View for DirectoryEntry {
    type V = EntryModel;

    open spec fn view(&self) -> EntryModel {
        EntryModel { name: self.name@, nid: self.nid, file_type: self.file_type }
    }
}

/// The values of a list of entries.
pub open spec fn models(list: Seq<DirectoryEntry>) -> Seq<EntryModel> {
    list.map_values(|e: DirectoryEntry| e@)
}

/// Why a directory cannot be written.
#[derive(Debug, Clone, Copy, PartialEq, Eq, Structural)]
pub enum DirectoryError {
    EntryTooLong,
    SizeOverflow,
}

// ---------------------------------------------------------------------------
// Order
// ---------------------------------------------------------------------------

/// The order of names: by the first byte in which they differ, a name before
/// its own continuations.
pub open spec fn precedes(a: Seq<u8>, b: Seq<u8>) -> bool
    decreases a.len(),
{
    if b.len() == 0 {
        false
    } else if a.len() == 0 {
        true
    } else if a[0] != b[0] {
        a[0] < b[0]
    } else {
        precedes(a.skip(1), b.skip(1))
    }
}

pub fn comes_before(a: &[u8], b: &[u8]) -> (less: bool)
    ensures
        less == precedes(a@, b@),
{
    let mut i: usize = 0;
    assert(a@.skip(0) == a@ && b@.skip(0) == b@);
    while i < a.len() && i < b.len()
        invariant
            i <= a@.len(),
            i <= b@.len(),
            precedes(a@, b@) == precedes(a@.skip(i as int), b@.skip(i as int)),
        decreases a@.len() - i,
    {
        if a[i] != b[i] {
            return a[i] < b[i];
        }
        assert(a@.skip(i as int).skip(1) == a@.skip(i + 1));
        assert(b@.skip(i as int).skip(1) == b@.skip(i + 1));
        i += 1;
    }
    i < b.len()
}

/// `precedes` orders any two names, and never a name before itself.
pub proof fn lemma_precedes_total(a: Seq<u8>, b: Seq<u8>)
    ensures
        precedes(a, b) || a == b || precedes(b, a),
        !(precedes(a, b) && precedes(b, a)),
        !precedes(a, a),
    decreases a.len(),
{
    if a.len() > 0 {
        assert(!precedes(a.skip(1), a.skip(1))) by {
            lemma_precedes_total(a.skip(1), a.skip(1));
        }
    }
    if a.len() > 0 && b.len() > 0 {
        lemma_precedes_total(a.skip(1), b.skip(1));
        if a[0] == b[0] && a.skip(1) == b.skip(1) {
            assert(a =~= seq![a[0]] + a.skip(1));
            assert(b =~= seq![b[0]] + b.skip(1));
        }
    } else if a.len() == 0 && b.len() == 0 {
        assert(a =~= b);
    }
}

/// `precedes` is transitive.
pub proof fn lemma_precedes_chain(a: Seq<u8>, b: Seq<u8>, c: Seq<u8>)
    requires
        precedes(a, b),
        precedes(b, c),
    ensures
        precedes(a, c),
    decreases a.len(),
{
    if a.len() > 0 && a[0] == b[0] && b[0] == c[0] {
        lemma_precedes_chain(a.skip(1), b.skip(1), c.skip(1));
    }
}

/// Where an entry goes in a sorted list: behind all whose name is not larger.
pub open spec fn place(list: Seq<EntryModel>, e: EntryModel) -> int
    decreases list.len(),
{
    if list.len() > 0 && precedes(e.name, list.last().name) {
        place(list.drop_last(), e)
    } else {
        list.len() as int
    }
}

/// The entries by name; those of one name stay in their order.
pub open spec fn sorted(list: Seq<EntryModel>) -> Seq<EntryModel>
    decreases list.len(),
{
    if list.len() == 0 {
        seq![]
    } else {
        let before = sorted(list.drop_last());
        before.insert(place(before, list.last()), list.last())
    }
}

/// A place lies within the list.
pub proof fn lemma_place(list: Seq<EntryModel>, e: EntryModel)
    ensures
        0 <= place(list, e) <= list.len(),
        forall|i: int|
            place(list, e) <= i < list.len() ==> precedes(e.name, (#[trigger] list[i]).name),
        place(list, e) > 0 ==> !precedes(e.name, list[place(list, e) - 1].name),
    decreases list.len(),
{
    if list.len() > 0 && precedes(e.name, list.last().name) {
        let rest = list.drop_last();
        lemma_place(rest, e);
        assert forall|i: int| place(list, e) <= i < list.len() implies precedes(
            e.name,
            (#[trigger] list[i]).name,
        ) by {
            if i < rest.len() {
                assert(rest[i] == list[i]);
            }
        }
    }
}

/// True when no entry has a smaller name than one before it.
pub open spec fn is_sorted(list: Seq<EntryModel>) -> bool {
    forall|i: int, j: int|
        0 <= i < j < list.len() ==> !precedes(
            (#[trigger] list[j]).name,
            (#[trigger] list[i]).name,
        )
}

/// A sorted directory holds the same entries, and none comes before one of a
/// smaller name.
pub proof fn law_sorting_keeps_entries(list: Seq<EntryModel>)
    ensures
        is_sorted(sorted(list)),
        sorted(list).to_multiset() == list.to_multiset(),
        sorted(list).len() == list.len(),
    decreases list.len(),
{
    if list.len() == 0 {
        assert(sorted(list) =~= list);
    } else {
        let rest = list.drop_last();
        let before = sorted(rest);
        let e = list.last();
        law_sorting_keeps_entries(rest);
        lemma_place(before, e);
        let at = place(before, e);
        let all = before.insert(at, e);
        assert forall|i: int, j: int| 0 <= i < j < all.len() implies !precedes(
            (#[trigger] all[j]).name,
            (#[trigger] all[i]).name,
        ) by {
            if j == at {
                // Nothing before the place is larger than the entry.
                if precedes(e.name, all[i].name) {
                    let left = before[at - 1];
                    assert(all[i] == before[i]);
                    if i < at - 1 {
                        assert(!precedes(left.name, before[i].name));
                        lemma_precedes_total(left.name, before[i].name);
                        if precedes(before[i].name, left.name) {
                            lemma_precedes_chain(e.name, before[i].name, left.name);
                        }
                    }
                    assert(false);
                }
            } else if i == at {
                assert(all[j] == before[j - 1]);
                lemma_precedes_total(e.name, before[j - 1].name);
            } else {
                let bi = if i < at {
                    i
                } else {
                    i - 1
                };
                let bj = if j < at {
                    j
                } else {
                    j - 1
                };
                assert(all[i] == before[bi]);
                assert(all[j] == before[bj]);
            }
        }
        before.to_multiset_ensures();
        rest.to_multiset_ensures();
        assert(all.to_multiset() =~= before.to_multiset().insert(e)) by {
            vstd::seq_lib::to_multiset_insert(before, at, e);
        }
        assert(list =~= rest.push(e));
        assert(list.to_multiset() =~= rest.to_multiset().insert(e));
    }
}

/// Sorts the entries of a directory by name.
pub fn sort_entries(list: Vec<DirectoryEntry>) -> (result: Vec<DirectoryEntry>)
    ensures
        models(result@) == sorted(models(list@)),
        result@.len() == list@.len(),
{
    let mut out: Vec<DirectoryEntry> = Vec::new();
    let ghost all = models(list@);
    let mut rest = list;
    let mut queue: Vec<DirectoryEntry> = Vec::new();
    // The list is emptied from its end, so it is turned round first.
    let n: usize = rest.len();
    while rest.len() > 0
        invariant
            rest@.len() + queue@.len() == n,
            n == all.len(),
            forall|i: int| 0 <= i < rest@.len() ==> (#[trigger] rest@[i])@ == all[i],
            forall|i: int|
                0 <= i < queue@.len() ==> (#[trigger] queue@[i])@ == all[n - 1 - i],
        decreases rest@.len(),
    {
        if let Some(e) = rest.pop() {
            queue.push(e);
        }
    }
    assert(models(out@) =~= sorted(all.take(0)));
    let mut done: usize = 0;
    while queue.len() > 0
        invariant
            done + queue@.len() == n,
            n == all.len(),
            out@.len() == done,
            forall|i: int|
                0 <= i < queue@.len() ==> (#[trigger] queue@[i])@ == all[n - 1 - i],
            models(out@) == sorted(all.take(done as int)),
        decreases queue@.len(),
    {
        if let Some(e) = queue.pop() {
            assert(e@ == all[done as int]);
            let ghost before = models(out@);
            let mut at: usize = out.len();
            assert(before.take(at as int) =~= before);
            while at > 0 && comes_before(e.name.as_slice(), out[at - 1].name.as_slice())
                invariant
                    at <= out@.len(),
                    before == models(out@),
                    place(before, e@) == place(before.take(at as int), e@),
                decreases at,
            {
                assert(before.take(at as int).drop_last() =~= before.take(at - 1));
                assert(before.take(at as int).last() == out@[at - 1]@);
                at -= 1;
            }
            proof {
                if at > 0 {
                    assert(before.take(at as int).last() == out@[at - 1]@);
                }
                assert(place(before, e@) == at);
                assert(all.take(done + 1).drop_last() =~= all.take(done as int));
            }
            let ghost model = e@;
            out.insert(at, e);
            done += 1;
            assert(models(out@) =~= before.insert(at as int, model));
        }
    }
    assert(all.take(done as int) =~= all);
    out
}

// ---------------------------------------------------------------------------
// Size
// ---------------------------------------------------------------------------

/// How many bytes an entry takes: a record of twelve, and its name.
pub open spec fn entry_len(e: EntryModel) -> int {
    12 + e.name.len() as int
}

/// The size of the first `n` entries, of which none crosses a block.
pub open spec fn size_of(list: Seq<EntryModel>, block_size: int, n: int) -> int
    decreases n,
{
    if n <= 0 {
        0
    } else {
        let before = size_of(list, block_size, n - 1);
        let length = entry_len(list[n - 1]);
        if before % block_size + length > block_size {
            layout::rounded(before, block_size) + length
        } else {
            before + length
        }
    }
}

/// True when each entry fits in a block.
pub open spec fn all_short(list: Seq<EntryModel>, block_size: int) -> bool {
    forall|i: int| 0 <= i < list.len() ==> entry_len(#[trigger] list[i]) <= block_size
}

proof fn lemma_size_grows(list: Seq<EntryModel>, block_size: int, n: int, m: int)
    requires
        0 <= n <= m,
        0 < block_size,
    ensures
        0 <= size_of(list, block_size, n) <= size_of(list, block_size, m),
    decreases m,
{
    if n < m {
        lemma_size_grows(list, block_size, n, m - 1);
        layout::lemma_rounded(size_of(list, block_size, m - 1), block_size);
    } else if n > 0 {
        lemma_size_grows(list, block_size, n - 1, n - 1);
        layout::lemma_rounded(size_of(list, block_size, n - 1), block_size);
    }
}

/// The size of a directory with the given entries.
pub fn directory_size(list: &Vec<DirectoryEntry>, block_size: u32) -> (size: Result<
    u64,
    DirectoryError,
>)
    requires
        block_size > 0,
    ensures
        ({
            let all = models(list@);
            let total = size_of(all, block_size as int, all.len() as int);
            match size {
                Ok(n) => all_short(all, block_size as int) && n == total,
                Err(DirectoryError::EntryTooLong) => !all_short(all, block_size as int),
                Err(DirectoryError::SizeOverflow) => total + block_size > u64::MAX,
            }
        }),
{
    let unit: u64 = block_size as u64;
    let ghost all = models(list@);
    let mut size: u64 = 0;
    let mut i: usize = 0;
    while i < list.len()
        invariant
            i <= list@.len(),
            all == models(list@),
            unit == block_size,
            block_size > 0,
            size == size_of(all, block_size as int, i as int),
            forall|k: int| 0 <= k < i ==> entry_len(#[trigger] all[k]) <= block_size,
        decreases list@.len() - i,
    {
        assert(all[i as int] == list@[i as int]@);
        let name_len: usize = list[i].name.len();
        if name_len as u64 > unit || 12 > unit - name_len as u64 {
            assert(entry_len(all[i as int]) > block_size);
            return Err(DirectoryError::EntryTooLong);
        }
        let length: u64 = 12 + name_len as u64;
        proof {
            lemma_size_grows(all, block_size as int, i + 1, all.len() as int);
            layout::lemma_rounded(size as int, block_size as int);
        }
        if size > u64::MAX - unit {
            proof {
                lemma_size_grows(all, block_size as int, i as int, all.len() as int);
            }
            return Err(DirectoryError::SizeOverflow);
        }
        if size % unit + length > unit {
            size = layout::round_up(size, unit);
        }
        if size > u64::MAX - length {
            return Err(DirectoryError::SizeOverflow);
        }
        size = size + length;
        i += 1;
    }
    Ok(size)
}

// ---------------------------------------------------------------------------
// Data
// ---------------------------------------------------------------------------

/// The end of the entries from `first` on that fit in a block of which `used`
/// bytes are taken.
pub open spec fn group_end(list: Seq<EntryModel>, block_size: int, first: int, used: int) -> int
    decreases list.len() - first,
{
    if 0 <= first < list.len() && used + entry_len(list[first]) <= block_size {
        group_end(list, block_size, first + 1, used + entry_len(list[first]))
    } else {
        first
    }
}

/// The names of the entries from `first` up to `end`, one behind the other.
pub open spec fn names(list: Seq<EntryModel>, first: int, end: int) -> Seq<u8>
    decreases end - first,
{
    if end <= first {
        seq![]
    } else {
        names(list, first, end - 1) + list[end - 1].name
    }
}

/// The records of the entries from `first` up to `end`, of a block in which the
/// names follow behind `count` records.
pub open spec fn records(list: Seq<EntryModel>, first: int, end: int, count: int) -> Seq<u8>
    decreases end - first,
{
    if end <= first {
        seq![]
    } else {
        let e = list[end - 1];
        records(list, first, end - 1, count) + bytes::bytes64(e.nid as int) + bytes::bytes16(
            12 * count + names(list, first, end - 1).len(),
        ) + seq![e.file_type, 0u8]
    }
}

/// One block of a directory.
pub open spec fn directory_block(list: Seq<EntryModel>, first: int, end: int) -> Seq<u8> {
    records(list, first, end, end - first) + names(list, first, end)
}

/// The data of the entries from `first` on. Each block but the last is filled
/// up with zeros.
pub open spec fn data_from(list: Seq<EntryModel>, block_size: int, first: int) -> Seq<u8>
    decreases list.len() - first,
{
    let end = group_end(list, block_size, first, 0);
    if first < 0 || first >= list.len() || end <= first {
        seq![]
    } else if end >= list.len() {
        directory_block(list, first, end)
    } else {
        let block = directory_block(list, first, end);
        block + bytes::filled(0, block_size - block.len()) + data_from(list, block_size, end)
    }
}

proof fn lemma_group_end(list: Seq<EntryModel>, block_size: int, first: int, used: int)
    requires
        0 <= first <= list.len(),
    ensures
        first <= group_end(list, block_size, first, used) <= list.len(),
    decreases list.len() - first,
{
    if first < list.len() && used + entry_len(list[first]) <= block_size {
        lemma_group_end(list, block_size, first + 1, used + entry_len(list[first]));
    }
}

/// What the entries from `first` up to `end` take.
pub open spec fn used_by(list: Seq<EntryModel>, first: int, end: int) -> int
    decreases end - first,
{
    if end <= first {
        0
    } else {
        used_by(list, first, end - 1) + entry_len(list[end - 1])
    }
}

proof fn lemma_block_len(list: Seq<EntryModel>, first: int, end: int, count: int)
    requires
        0 <= first <= end <= list.len(),
    ensures
        records(list, first, end, count).len() == 12 * (end - first),
        names(list, first, end).len() == used_by(list, first, end) - 12 * (end - first),
        used_by(list, first, end) >= 12 * (end - first),
    decreases end - first,
{
    if first < end {
        lemma_block_len(list, first, end - 1, count);
    }
}

fn push_block(data: &mut Vec<u8>, list: &Vec<DirectoryEntry>, first: usize, end: usize)
    requires
        first <= end <= list@.len(),
        used_by(models(list@), first as int, end as int) <= 4096,
    ensures
        final(data)@ == old(data)@ + directory_block(
            models(list@),
            first as int,
            end as int,
        ),
{
    let ghost all = models(list@);
    let count: usize = end - first;
    proof {
        lemma_block_len(all, first as int, end as int, count as int);
    }
    let mut name_offset: usize = 12 * count;
    let mut i: usize = first;
    assert(data@ =~= old(data)@ + records(all, first as int, first as int, count as int));
    while i < end
        invariant
            first <= i <= end <= list@.len(),
            all == models(list@),
            count == end - first,
            used_by(all, first as int, end as int) <= 4096,
            12 * count <= 4096,
            name_offset == 12 * count + names(all, first as int, i as int).len(),
            data@ == old(data)@ + records(all, first as int, i as int, count as int),
        decreases end - i,
    {
        let e = &list[i];
        assert(all[i as int] == e@);
        proof {
            lemma_used_grows(all, first as int, i + 1, end as int);
            lemma_block_len(all, first as int, i + 1, count as int);
            lemma_block_len(all, first as int, i as int, count as int);
            lemma_block_len(all, first as int, end as int, count as int);
            lemma_names_bound(all, first as int, i as int, end as int);
        }
        let ghost before = data@;
        bytes::push_u64(data, e.nid);
        bytes::push_u16(data, name_offset as u16);
        data.push(e.file_type);
        data.push(0);
        name_offset = name_offset + e.name.len();
        i += 1;
        assert(data@ =~= old(data)@ + records(all, first as int, i as int, count as int));
    }
    let ghost head = data@;
    let mut j: usize = first;
    assert(data@ =~= head + names(all, first as int, first as int));
    while j < end
        invariant
            first <= j <= end <= list@.len(),
            all == models(list@),
            data@ == head + names(all, first as int, j as int),
        decreases end - j,
    {
        assert(all[j as int] == list@[j as int]@);
        bytes::push_all(data, list[j].name.as_slice());
        j += 1;
        assert(data@ =~= head + names(all, first as int, j as int));
    }
    assert(data@ =~= old(data)@ + directory_block(all, first as int, end as int));
}

proof fn lemma_used_grows(list: Seq<EntryModel>, first: int, a: int, b: int)
    requires
        first <= a <= b,
    ensures
        used_by(list, first, a) <= used_by(list, first, b),
    decreases b - a,
{
    if a < b {
        lemma_used_grows(list, first, a, b - 1);
    }
}

/// The records of a block and the names before one of its entries fit in it.
proof fn lemma_names_bound(list: Seq<EntryModel>, first: int, i: int, end: int)
    requires
        0 <= first <= i <= end <= list.len(),
    ensures
        12 * (end - first) + names(list, first, i).len() <= used_by(list, first, end),
    decreases end - i,
{
    if i < end {
        lemma_names_bound(list, first, i + 1, end);
    } else {
        lemma_block_len(list, first, end, 0);
    }
}

/// Writes the data of a directory, or says why it cannot be written.
pub fn encode_directory(list: &Vec<DirectoryEntry>, block_size: u32) -> (data: Result<
    Vec<u8>,
    DirectoryError,
>)
    requires
        0 < block_size <= 4096,
    ensures
        ({
            let all = models(list@);
            match data {
                Ok(found) => all_short(all, block_size as int) && found@ == data_from(
                    all,
                    block_size as int,
                    0,
                ),
                Err(DirectoryError::EntryTooLong) => !all_short(all, block_size as int),
                Err(DirectoryError::SizeOverflow) => size_of(
                    all,
                    block_size as int,
                    all.len() as int,
                ) + block_size > u64::MAX,
            }
        }),
{
    match directory_size(list, block_size) {
        Ok(_) => Ok(write_entries(list, block_size)),
        Err(error) => Err(error),
    }
}

/// Writes the data of a directory whose entries fit in blocks.
pub(crate) fn write_entries(list: &Vec<DirectoryEntry>, block_size: u32) -> (data: Vec<u8>)
    requires
        0 < block_size <= 4096,
        all_short(models(list@), block_size as int),
    ensures
        data@ == data_from(models(list@), block_size as int, 0),
{
    let ghost all = models(list@);
    let unit: usize = block_size as usize;
    let mut data: Vec<u8> = Vec::new();
    let mut first: usize = 0;
    assert(data@ + data_from(all, unit as int, 0) =~= data_from(all, unit as int, 0));
    while first < list.len()
        invariant
            first <= list@.len(),
            all == models(list@),
            unit == block_size,
            0 < block_size <= 4096,
            all_short(all, unit as int),
            data_from(all, unit as int, 0) == data@ + data_from(all, unit as int, first as int),
        decreases list@.len() - first,
    {
        let mut end: usize = first;
        let mut used: usize = 0;
        while end < list.len() && list[end].name.len() <= unit && used + 12 + list[end].name.len()
            <= unit
            invariant
                first <= end <= list@.len(),
                all == models(list@),
                unit <= 4096,
                used <= unit,
                used == used_by(all, first as int, end as int),
                group_end(all, unit as int, first as int, 0) == group_end(
                    all,
                    unit as int,
                    end as int,
                    used as int,
                ),
            decreases list@.len() - end,
        {
            assert(all[end as int] == list@[end as int]@);
            used = used + 12 + list[end].name.len();
            end += 1;
        }
        proof {
            if end < list@.len() {
                assert(all[end as int] == list@[end as int]@);
            }
            assert(end == group_end(all, unit as int, first as int, 0));
            assert(entry_len(all[first as int]) <= unit);
            if end == first {
                assert(used == 0);
                assert(all[first as int] == list@[first as int]@);
            }
            lemma_block_len(all, first as int, end as int, end - first);
        }
        let ghost before = data@;
        push_block(&mut data, list, first, end);
        if end < list.len() {
            bytes::push_filled(&mut data, 0, unit - used);
            assert(before + (directory_block(all, first as int, end as int) + bytes::filled(
                0,
                unit - used,
            ) + data_from(all, unit as int, end as int)) =~= data@ + data_from(
                all,
                unit as int,
                end as int,
            ));
        } else {
            assert(data@ + data_from(all, unit as int, end as int) =~= data@);
        }
        first = end;
    }
    assert(data@ + data_from(all, unit as int, first as int) =~= data@);
    data
}

// ---------------------------------------------------------------------------
// Laws
// ---------------------------------------------------------------------------

/// Entries that share a block take their own sizes.
proof fn lemma_size_in_block(
    list: Seq<EntryModel>,
    block_size: int,
    start: int,
    first: int,
    end: int,
)
    requires
        0 < block_size,
        0 <= first < end <= list.len(),
        all_short(list, block_size),
        start >= 0,
        start % block_size == 0,
        size_of(list, block_size, first) == start || (first > 0 && layout::rounded(
            size_of(list, block_size, first),
            block_size,
        ) == start && size_of(list, block_size, first) % block_size + entry_len(list[first])
            > block_size),
        used_by(list, first, end) <= block_size,
    ensures
        size_of(list, block_size, end) == start + used_by(list, first, end),
    decreases end - first,
{
    if end == first + 1 {
        assert(used_by(list, first, first) == 0);
        assert(entry_len(list[first]) <= block_size);
        if size_of(list, block_size, first) == start {
            assert(start % block_size + entry_len(list[first]) <= block_size);
        }
    } else {
        lemma_used_grows(list, first, end - 1, end);
        lemma_size_in_block(list, block_size, start, first, end - 1);
        let used = used_by(list, first, end - 1);
        let length = entry_len(list[end - 1]);
        assert(used + length <= block_size);
        lemma_block_len(list, first, end - 1, 0);
        assert((start + used) % block_size == used) by {
            assert(0 <= used < block_size);
            vstd::arithmetic::div_mod::lemma_add_mod_noop(start, used, block_size);
            vstd::arithmetic::div_mod::lemma_small_mod(used as nat, block_size as nat);
        }
    }
}

proof fn lemma_used_by_group(
    list: Seq<EntryModel>,
    block_size: int,
    first: int,
    at: int,
)
    requires
        0 <= first <= at <= list.len(),
        used_by(list, first, at) <= block_size,
    ensures
        ({
            let end = group_end(list, block_size, at, used_by(list, first, at));
            &&& used_by(list, first, end) <= block_size
            &&& end < list.len() ==> used_by(list, first, end) + entry_len(list[end]) > block_size
        }),
    decreases list.len() - at,
{
    lemma_group_end(list, block_size, at, used_by(list, first, at));
    if at < list.len() && used_by(list, first, at) + entry_len(list[at]) <= block_size {
        lemma_used_by_group(list, block_size, first, at + 1);
    }
}

proof fn lemma_data_len(list: Seq<EntryModel>, block_size: int, first: int, start: int)
    requires
        0 < block_size,
        0 <= first < list.len(),
        all_short(list, block_size),
        start >= 0,
        start % block_size == 0,
        size_of(list, block_size, first) == start || (first > 0 && layout::rounded(
            size_of(list, block_size, first),
            block_size,
        ) == start && size_of(list, block_size, first) % block_size + entry_len(list[first])
            > block_size),
    ensures
        start + data_from(list, block_size, first).len() == size_of(
            list,
            block_size,
            list.len() as int,
        ),
    decreases list.len() - first,
{
    let end = group_end(list, block_size, first, 0);
    assert(used_by(list, first, first) == 0);
    lemma_used_by_group(list, block_size, first, first);
    lemma_group_end(list, block_size, first, 0);
    assert(entry_len(list[first]) <= block_size);
    lemma_group_end(list, block_size, first + 1, entry_len(list[first]));
    assert(end > first);
    let used = used_by(list, first, end);
    lemma_block_len(list, first, end, end - first);
    lemma_size_in_block(list, block_size, start, first, end);
    if end < list.len() {
        let size = size_of(list, block_size, end);
        let next = start + block_size;
        assert(used > 0);
        assert(size == start + used);
        if used == block_size {
            assert(size == next);
        } else {
            vstd::arithmetic::div_mod::lemma_add_mod_noop(start, used, block_size);
            vstd::arithmetic::div_mod::lemma_small_mod(used as nat, block_size as nat);
            assert(size % block_size == used);
            lemma_next_multiple(start, used, block_size);
        }
        assert(next % block_size == 0) by {
            vstd::arithmetic::div_mod::lemma_mod_add_multiples_vanish(start, block_size);
        }
        lemma_data_len(list, block_size, end, next);
    } else {
        assert(data_from(list, block_size, first) == directory_block(list, first, end));
    }
}

proof fn lemma_next_multiple(start: int, used: int, unit: int)
    requires
        0 < used < unit,
        start % unit == 0,
        0 <= start,
    ensures
        layout::rounded(start + used, unit) == start + unit,
{
    layout::lemma_rounded(start + used, unit);
    let up = layout::rounded(start + used, unit);
    vstd::arithmetic::div_mod::lemma_fundamental_div_mod(start, unit);
    vstd::arithmetic::div_mod::lemma_fundamental_div_mod(up, unit);
    let a = start / unit;
    let b = up / unit;
    assert(unit * a == start);
    assert(unit * b == up);
    assert(b == a + 1) by (nonlinear_arith)
        requires
            unit * a == start,
            unit * b == up,
            start + used <= up < start + used + unit,
            0 < used < unit,
    ;
    assert(unit * (a + 1) == unit * a + unit) by (nonlinear_arith);
}

/// The data of a directory has exactly the size that was computed for it.
pub proof fn law_directory_data_has_its_size(list: Seq<EntryModel>, block_size: int)
    requires
        0 < block_size,
        all_short(list, block_size),
    ensures
        data_from(list, block_size, 0).len() == size_of(list, block_size, list.len() as int),
{
    if list.len() > 0 {
        lemma_data_len(list, block_size, 0, 0);
    }
}

/// True when the data of a directory has, in a block that starts at `block`, a
/// record with number `slot` that lists the entry, and its name.
pub open spec fn lists_entry(data: Seq<u8>, block: int, slot: int, e: EntryModel) -> bool {
    let at = block + 12 * slot;
    let name_at = block + bytes::le16(data, at + 8);
    &&& 0 <= at
    &&& at + 12 <= data.len()
    &&& bytes::le64(data, at) == e.nid
    &&& data[at + 10] == e.file_type
    &&& name_at + e.name.len() <= data.len()
    &&& data.subrange(name_at, name_at + e.name.len()) == e.name
}

proof fn lemma_record_at(list: Seq<EntryModel>, first: int, end: int, count: int, i: int)
    requires
        0 <= first <= i < end <= list.len(),
        12 * count + names(list, first, i).len() < 0x1_0000,
        count >= 0,
    ensures
        ({
            let r = records(list, first, end, count);
            let at = 12 * (i - first);
            &&& at + 12 <= r.len()
            &&& bytes::le64(r, at) == list[i].nid
            &&& bytes::le16(r, at + 8) == 12 * count + names(list, first, i).len()
            &&& r[at + 10] == list[i].file_type
        }),
    decreases end - first,
{
    lemma_block_len(list, first, end, count);
    lemma_block_len(list, first, end - 1, count);
    let before = records(list, first, end - 1, count);
    let r = records(list, first, end, count);
    let at = 12 * (i - first);
    if i < end - 1 {
        lemma_record_at(list, first, end - 1, count, i);
        assert forall|k: int| 0 <= k < 12 implies #[trigger] r[at + k] == before[at + k] by {}
        lemma_same_le64(r, at, before, at);
    } else {
        let e = list[i];
        let a = bytes::bytes64(e.nid as int);
        let b = bytes::bytes16(12 * count + names(list, first, i).len());
        bytes::lemma_bytes64(e.nid as int);
        bytes::lemma_bytes16(12 * count + names(list, first, i).len());
        assert forall|k: int| 0 <= k < 8 implies #[trigger] r[at + k] == a[k] by {}
        lemma_same_le64(r, at, a, 0);
        assert(r[at + 8] == b[0]);
        assert(r[at + 9] == b[1]);
    }
}

/// Eight equal bytes are equal numbers.
pub proof fn lemma_same_le64(a: Seq<u8>, i: int, b: Seq<u8>, j: int)
    requires
        forall|k: int| 0 <= k < 8 ==> #[trigger] a[i + k] == b[j + k],
    ensures
        bytes::le64(a, i) == bytes::le64(b, j),
{
    assert(a[i + 0] == b[j + 0]);
    assert(a[i + 1] == b[j + 1]);
    assert(a[i + 2] == b[j + 2]);
    assert(a[i + 3] == b[j + 3]);
    assert(a[i + 4] == b[j + 4]);
    assert(a[i + 5] == b[j + 5]);
    assert(a[i + 6] == b[j + 6]);
    assert(a[i + 7] == b[j + 7]);
}

proof fn lemma_name_at(list: Seq<EntryModel>, first: int, end: int, i: int)
    requires
        0 <= first <= i < end <= list.len(),
    ensures
        ({
            let all = names(list, first, end);
            let at = names(list, first, i).len() as int;
            &&& at + list[i].name.len() <= all.len()
            &&& all.subrange(at, at + list[i].name.len()) == list[i].name
        }),
    decreases end - first,
{
    let all = names(list, first, end);
    let at = names(list, first, i).len() as int;
    if i < end - 1 {
        lemma_name_at(list, first, end - 1, i);
        let before = names(list, first, end - 1);
        assert(all.subrange(at, at + list[i].name.len()) =~= before.subrange(
            at,
            at + list[i].name.len(),
        ));
    } else {
        assert(all.subrange(at, at + list[i].name.len()) =~= list[i].name);
    }
}

proof fn lemma_block_lists(list: Seq<EntryModel>, first: int, end: int, i: int)
    requires
        0 <= first <= i < end <= list.len(),
        used_by(list, first, end) <= 4096,
    ensures
        lists_entry(directory_block(list, first, end), 0, i - first, list[i]),
{
    let count = end - first;
    let data = directory_block(list, first, end);
    let r = records(list, first, end, count);
    let n = names(list, first, end);
    lemma_block_len(list, first, end, count);
    lemma_names_bound(list, first, i, end);
    lemma_record_at(list, first, end, count, i);
    lemma_name_at(list, first, end, i);
    let at = 12 * (i - first);
    assert forall|k: int| 0 <= k < 8 implies #[trigger] data[at + k] == r[at + k] by {}
    lemma_same_le64(data, at, r, at);
    assert(data[at + 8] == r[at + 8]);
    assert(data[at + 9] == r[at + 9]);
    let name_at = bytes::le16(data, at + 8);
    let inner = names(list, first, i).len() as int;
    assert(name_at == 12 * count + inner);
    assert(data.subrange(name_at, name_at + list[i].name.len()) =~= n.subrange(
        inner,
        inner + list[i].name.len(),
    ));
}

/// An entry that the front of the data lists is listed by all of it.
proof fn lemma_lists_front(front: Seq<u8>, rest: Seq<u8>, block: int, slot: int, e: EntryModel)
    requires
        0 <= block,
        0 <= slot,
        lists_entry(front, block, slot, e),
    ensures
        lists_entry(front + rest, block, slot, e),
{
    let data = front + rest;
    let at = block + 12 * slot;
    assert forall|k: int| 0 <= k < 8 implies #[trigger] data[at + k] == front[at + k] by {}
    lemma_same_le64(data, at, front, at);
    let name_at = block + bytes::le16(front, at + 8);
    assert(data[at + 8] == front[at + 8]);
    assert(data[at + 9] == front[at + 9]);
    assert(data.subrange(name_at, name_at + e.name.len()) =~= front.subrange(
        name_at,
        name_at + e.name.len(),
    ));
}

/// An entry that the rest of the data lists is listed by all of it.
proof fn lemma_lists_back(front: Seq<u8>, rest: Seq<u8>, block: int, slot: int, e: EntryModel)
    requires
        0 <= block,
        0 <= slot,
        lists_entry(rest, block, slot, e),
    ensures
        lists_entry(front + rest, front.len() + block, slot, e),
{
    let data = front + rest;
    let at = block + 12 * slot;
    let moved = front.len() + at;
    assert forall|k: int| 0 <= k < 8 implies #[trigger] data[moved + k] == rest[at + k] by {}
    lemma_same_le64(data, moved, rest, at);
    let name_at = block + bytes::le16(rest, at + 8);
    assert(data[moved + 8] == rest[at + 8]);
    assert(data[moved + 9] == rest[at + 9]);
    assert(data.subrange(front.len() + name_at, front.len() + name_at + e.name.len())
        =~= rest.subrange(name_at, name_at + e.name.len()));
}

proof fn lemma_data_lists(list: Seq<EntryModel>, block_size: int, first: int, i: int) -> (r: (
    int,
    int,
))
    requires
        0 < block_size <= 4096,
        0 <= first <= i < list.len(),
        all_short(list, block_size),
    ensures
        r.0 >= 0,
        r.0 % block_size == 0,
        r.1 >= 0,
        lists_entry(data_from(list, block_size, first), r.0, r.1, list[i]),
    decreases list.len() - first,
{
    let end = group_end(list, block_size, first, 0);
    assert(used_by(list, first, first) == 0);
    lemma_used_by_group(list, block_size, first, first);
    lemma_group_end(list, block_size, first, 0);
    assert(entry_len(list[first]) <= block_size);
    lemma_group_end(list, block_size, first + 1, entry_len(list[first]));
    assert(end > first);
    let block = directory_block(list, first, end);
    lemma_block_len(list, first, end, end - first);
    if i < end {
        lemma_block_lists(list, first, end, i);
        if end < list.len() {
            let rest = bytes::filled(0, block_size - block.len()) + data_from(
                list,
                block_size,
                end,
            );
            lemma_lists_front(block, rest, 0, i - first, list[i]);
            assert(data_from(list, block_size, first) =~= block + rest);
        }
        vstd::arithmetic::div_mod::lemma_small_mod(0, block_size as nat);
        (0, i - first)
    } else {
        let (at, slot) = lemma_data_lists(list, block_size, end, i);
        let front = block + bytes::filled(0, block_size - block.len());
        let rest = data_from(list, block_size, end);
        assert(front.len() == block_size);
        lemma_lists_back(front, rest, at, slot, list[i]);
        assert((block_size + at) % block_size == 0) by {
            vstd::arithmetic::div_mod::lemma_mod_add_multiples_vanish(at, block_size);
        }
        (block_size + at, slot)
    }
}

/// The data of a directory lists every entry: some block has a record with its
/// node, its type and where its name stands.
pub proof fn law_directory_lists_every_entry(list: Seq<EntryModel>, block_size: int, i: int)
    requires
        0 < block_size <= 4096,
        all_short(list, block_size),
        0 <= i < list.len(),
    ensures
        exists|block: int, slot: int|
            block >= 0 && block % block_size == 0 && slot >= 0 && #[trigger] lists_entry(
                data_from(list, block_size, 0),
                block,
                slot,
                list[i],
            ),
{
    let (block, slot) = lemma_data_lists(list, block_size, 0, i);
    assert(lists_entry(data_from(list, block_size, 0), block, slot, list[i]));
}

// ---------------------------------------------------------------------------
// Reading back
// ---------------------------------------------------------------------------

/// `s` without the zeros that it ends with.
pub open spec fn without_padding(s: Seq<u8>) -> Seq<u8>
    decreases s.len(),
{
    if s.len() > 0 && s.last() == 0 {
        without_padding(s.drop_last())
    } else {
        s
    }
}

/// Entry `k` of a block with `count` records. A name ends where the next one
/// starts; the last one ends with the block, or where its padding starts.
pub open spec fn read_entry(block: Seq<u8>, count: int, padded: bool, k: int) -> EntryModel {
    let at = 12 * k;
    let from = bytes::le16(block, at + 8);
    EntryModel {
        name: if k + 1 < count {
            block.subrange(from, bytes::le16(block, at + 20))
        } else if padded {
            without_padding(block.skip(from))
        } else {
            block.skip(from)
        },
        nid: bytes::le64(block, at) as u64,
        file_type: block[at + 10],
    }
}

/// The entries of a block. The first name starts behind the last record.
pub open spec fn read_block(block: Seq<u8>, padded: bool) -> Seq<EntryModel> {
    let count = bytes::le16(block, 8) / 12;
    Seq::new(count as nat, |k: int| read_entry(block, count, padded, k))
}

/// The entries of a directory, block by block. Every block but the last is
/// padded.
pub open spec fn read_directory(data: Seq<u8>, block_size: int) -> Seq<EntryModel>
    decreases data.len(),
{
    if block_size <= 0 || data.len() == 0 {
        seq![]
    } else if data.len() <= block_size {
        read_block(data, false)
    } else {
        read_block(data.take(block_size), true) + read_directory(data.skip(block_size), block_size)
    }
}

/// True when no name that is followed by padding ends with a zero itself.
pub open spec fn pads_clearly(list: Seq<EntryModel>, block_size: int, first: int) -> bool
    decreases list.len() - first,
{
    let end = group_end(list, block_size, first, 0);
    first < 0 || end <= first || end >= list.len() || {
        &&& list[end - 1].name.len() > 0 ==> list[end - 1].name.last() != 0
        &&& pads_clearly(list, block_size, end)
    }
}

proof fn lemma_padding(s: Seq<u8>, count: int)
    requires
        0 <= count,
        s.len() > 0 ==> s.last() != 0,
    ensures
        without_padding(s + bytes::filled(0, count)) == s,
    decreases count,
{
    let all = s + bytes::filled(0, count);
    if count == 0 {
        assert(all =~= s);
    } else {
        assert(all.drop_last() =~= s + bytes::filled(0, count - 1));
        lemma_padding(s, count - 1);
    }
}

/// True when a block that starts with entry `first` holds the record of entry
/// `i`.
spec fn has_record(block: Seq<u8>, list: Seq<EntryModel>, first: int, count: int, i: int) -> bool {
    let at = 12 * (i - first);
    &&& bytes::le64(block, at) == list[i].nid
    &&& bytes::le16(block, at + 8) == 12 * count + names(list, first, i).len()
    &&& block[at + 10] == list[i].file_type
}

/// A block reads back as its entries, with the padding that it has.
#[verifier::rlimit(50)]
#[verifier::spinoff_prover]
proof fn lemma_block_reads_back(
    list: Seq<EntryModel>,
    first: int,
    end: int,
    padding: int,
    padded: bool,
)
    requires
        0 <= first < end <= list.len(),
        used_by(list, first, end) <= 4096,
        0 <= padding,
        !padded ==> padding == 0,
        padded && list[end - 1].name.len() > 0 ==> list[end - 1].name.last() != 0,
    ensures
        read_block(directory_block(list, first, end) + bytes::filled(0, padding), padded)
            == list.subrange(first, end),
{
    let count = end - first;
    let plain = directory_block(list, first, end);
    let block = plain + bytes::filled(0, padding);
    let r = records(list, first, end, count);
    let n = names(list, first, end);
    lemma_block_len(list, first, end, count);
    assert forall|i: int| first <= i < end implies #[trigger] has_record(
        block,
        list,
        first,
        count,
        i,
    ) by {
        let at = 12 * (i - first);
        lemma_names_bound(list, first, i, end);
        lemma_record_at(list, first, end, count, i);
        assert forall|k: int| 0 <= k < 8 implies #[trigger] block[at + k] == r[at + k] by {}
        lemma_same_le64(block, at, r, at);
        assert(block[at + 8] == r[at + 8]);
        assert(block[at + 9] == r[at + 9]);
        assert(block[at + 10] == r[at + 10]);
    }
    assert(has_record(block, list, first, count, first));
    let read = read_block(block, padded);
    assert(read.len() == count);
    assert forall|k: int| 0 <= k < count implies #[trigger] read[k] == list.subrange(
        first,
        end,
    )[k] by {
        let i = first + k;
        let at = 12 * k;
        assert(has_record(block, list, first, count, i));
        let inner = names(list, first, i).len() as int;
        let from = 12 * count + inner;
        let name = list[i].name;
        lemma_name_at(list, first, end, i);
        assert(names(list, first, i + 1) == names(list, first, i) + name);
        if k + 1 < count {
            assert(has_record(block, list, first, count, i + 1));
            assert(block.subrange(from, from + name.len()) =~= n.subrange(
                inner,
                inner + name.len(),
            ));
        } else {
            assert(n.len() == inner + name.len());
            assert(n.subrange(inner, inner + name.len()) =~= n.skip(inner));
            assert(block.skip(from) =~= name + bytes::filled(0, padding));
            if padded {
                lemma_padding(name, padding);
            } else {
                assert(block.skip(from) =~= name);
            }
        }
        assert(read[k] =~= list[i]);
    }
    assert(read =~= list.subrange(first, end));
}

proof fn lemma_directory_reads_back(list: Seq<EntryModel>, block_size: int, first: int)
    requires
        0 < block_size <= 4096,
        0 <= first < list.len(),
        all_short(list, block_size),
        pads_clearly(list, block_size, first),
    ensures
        read_directory(data_from(list, block_size, first), block_size) == list.skip(first),
        data_from(list, block_size, first).len() > 0,
    decreases list.len() - first,
{
    let end = group_end(list, block_size, first, 0);
    assert(used_by(list, first, first) == 0);
    lemma_used_by_group(list, block_size, first, first);
    lemma_group_end(list, block_size, first, 0);
    assert(entry_len(list[first]) <= block_size);
    lemma_group_end(list, block_size, first + 1, entry_len(list[first]));
    assert(end > first);
    let block = directory_block(list, first, end);
    lemma_block_len(list, first, end, end - first);
    let data = data_from(list, block_size, first);
    if end < list.len() {
        let padding = block_size - block.len();
        let rest = data_from(list, block_size, end);
        lemma_directory_reads_back(list, block_size, end);
        lemma_block_reads_back(list, first, end, padding, true);
        let front = block + bytes::filled(0, padding);
        assert(data == front + rest);
        assert(data.take(block_size) =~= front);
        assert(data.skip(block_size) =~= rest);
        assert(list.subrange(first, end) + list.skip(end) =~= list.skip(first));
    } else {
        lemma_block_reads_back(list, first, end, 0, false);
        assert(block + bytes::filled(0, 0) =~= block);
        assert(list.subrange(first, end) =~= list.skip(first));
    }
}

/// The data of a directory, read block by block, gives back every entry once and
/// in order, with its name, its node and its type; none crosses a block. Left
/// out are directories in which a name that is followed by padding ends with a
/// zero.
pub proof fn law_directories_read_back(list: Seq<EntryModel>, block_size: int)
    requires
        0 < block_size <= 4096,
        all_short(list, block_size),
        pads_clearly(list, block_size, 0),
    ensures
        read_directory(data_from(list, block_size, 0), block_size) == list,
{
    if list.len() > 0 {
        lemma_directory_reads_back(list, block_size, 0);
        assert(list.skip(0) =~= list);
    } else {
        assert(list =~= seq![]);
    }
}

/// Names without zeros are clear of padding.
pub proof fn lemma_names_pad_clearly(list: Seq<EntryModel>, block_size: int, first: int)
    requires
        0 <= first <= list.len(),
        forall|i: int| 0 <= i < list.len() ==> !(#[trigger] list[i]).name.contains(0u8),
    ensures
        pads_clearly(list, block_size, first),
    decreases list.len() - first,
{
    let end = group_end(list, block_size, first, 0);
    lemma_group_end(list, block_size, first, 0);
    if first < end < list.len() {
        let name = list[end - 1].name;
        if name.len() > 0 {
            assert(name.contains(name.last()));
        }
        lemma_names_pad_clearly(list, block_size, end);
    }
}

/// A name comes before another one where the first byte in which they differ is
/// smaller, or where it is the start of the other one.
pub proof fn law_names_are_ordered_by_bytes(a: Seq<u8>, b: Seq<u8>, k: int)
    requires
        0 <= k <= a.len(),
        k <= b.len(),
        forall|i: int| 0 <= i < k ==> #[trigger] a[i] == b[i],
    ensures
        k < a.len() && k < b.len() && a[k] != b[k] ==> (precedes(a, b) <==> a[k] < b[k]),
        k == a.len() && k < b.len() ==> precedes(a, b),
        k == b.len() ==> !precedes(a, b),
    decreases k,
{
    if k > 0 {
        let c = a.skip(1);
        let d = b.skip(1);
        assert(a[0] == b[0]);
        assert forall|i: int| 0 <= i < k - 1 implies #[trigger] c[i] == d[i] by {
            assert(a[i + 1] == b[i + 1]);
        }
        law_names_are_ordered_by_bytes(c, d, k - 1);
    }
}

} // verus!
