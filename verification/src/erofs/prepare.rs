//! The inodes of the files of an image, before any data is written.

use vstd::prelude::*;

use crate::bytes;
use crate::erofs::build_options::BuildOptions;
use crate::erofs::directory;
use crate::erofs::directory::{DirectoryEntry, EntryModel};
use crate::erofs::layout;
use crate::erofs::layout::{EROFS_FT_DIR, EROFS_INODE_FLAT_INLINE};
use crate::erofs::tree::{Entry, EntryError};
use crate::erofs::xattrs;
use crate::erofs::xattrs::{SharedXattr, Usage};

verus! {

// ---------------------------------------------------------------------------
// The entries of a directory
// ---------------------------------------------------------------------------

/// True when the entries refer to one another only.
pub open spec fn is_tree(entries: Seq<Entry>) -> bool {
    forall|i: int|
        0 <= i < entries.len() ==> {
            let e = #[trigger] entries[i];
            &&& e.parent < entries.len()
            &&& forall|k: int|
                0 <= k < e.children@.len() ==> (#[trigger] e.children@[k]).1 < entries.len()
            &&& e.alias matches Some(j) ==> j < entries.len()
        }
}

/// What a directory lists of one child.
pub open spec fn child_model(entries: Seq<Entry>, child: (Vec<u8>, usize)) -> EntryModel {
    let e = entries[child.1 as int];
    EntryModel { name: child.0@, nid: e.nid, file_type: layout::ftype_of(e.metadata.mode) }
}

/// What a directory lists: itself, its parent, and its children.
pub open spec fn listing(entries: Seq<Entry>, index: int) -> Seq<EntryModel> {
    let e = entries[index];
    seq![
        EntryModel { name: seq![0x2eu8], nid: e.nid, file_type: EROFS_FT_DIR },
        EntryModel {
            name: seq![0x2eu8, 0x2e],
            nid: entries[e.parent as int].nid,
            file_type: EROFS_FT_DIR,
        },
    ] + e.children@.map_values(|child: (Vec<u8>, usize)| child_model(entries, child))
}

/// The entries of a directory, by name.
pub fn directory_entries(entries: &Vec<Entry>, index: usize) -> (list: Vec<DirectoryEntry>)
    requires
        is_tree(entries@),
        index < entries@.len(),
    ensures
        directory::models(list@) == directory::sorted(listing(entries@, index as int)),
{
    let ghost all = listing(entries@, index as int);
    let e = &entries[index];
    let mut list: Vec<DirectoryEntry> = Vec::new();
    let mut dot: Vec<u8> = Vec::new();
    dot.push(0x2e);
    let mut dots: Vec<u8> = Vec::new();
    dots.push(0x2e);
    dots.push(0x2e);
    assert(dot@ =~= seq![0x2eu8]);
    assert(dots@ =~= seq![0x2eu8, 0x2e]);
    list.push(DirectoryEntry { name: dot, nid: e.nid, file_type: EROFS_FT_DIR });
    list.push(DirectoryEntry { name: dots, nid: entries[e.parent].nid, file_type: EROFS_FT_DIR });
    let mut k: usize = 0;
    assert(directory::models(list@) =~= all.take(2));
    while k < e.children.len()
        invariant
            k <= e.children@.len(),
            is_tree(entries@),
            index < entries@.len(),
            *e == entries@[index as int],
            all == listing(entries@, index as int),
            list@.len() == k + 2,
            directory::models(list@) == all.take(k + 2),
        decreases e.children@.len() - k,
    {
        let child: usize = e.children[k].1;
        let name = bytes::copy_range(
            e.children[k].0.as_slice(),
            0,
            e.children[k].0.len(),
        );
        assert(name@ =~= e.children@[k as int].0@);
        let ghost before = directory::models(list@);
        let next = DirectoryEntry {
            name,
            nid: entries[child].nid,
            file_type: layout::erofs_mode_to_ftype(entries[child].metadata.mode),
        };
        assert(next@ == all[k + 2]);
        let ghost model = next@;
        list.push(next);
        assert(directory::models(list@) =~= before.push(model));
        k += 1;
        assert(directory::models(list@) =~= all.take(k + 2));
    }
    assert(all.take(k + 2) =~= all);
    directory::sort_entries(list)
}

// ---------------------------------------------------------------------------
// Inodes
// ---------------------------------------------------------------------------

/// True when the fields of an inode fit in its short form.
pub open spec fn fits_compact(e: Entry, size: int, epoch: u64) -> bool {
    &&& size <= 0xffff_ffff
    &&& e.metadata.uid <= 0xffff
    &&& e.metadata.gid <= 0xffff
    &&& e.links <= 0xffff
    &&& 0 <= e.metadata.mtime - epoch <= 0xffff_ffff
    &&& e.metadata.mtime_nsec == 0
}

/// True when the end of a file can stand behind its inode.
pub open spec fn may_inline(
    size: int,
    inode_size: int,
    xattrs_len: int,
    block_size: int,
    enabled: bool,
) -> bool {
    let tail = size % block_size;
    enabled && tail != 0 && inode_size + xattrs_len + tail <= block_size
}

impl Entry {
    /// How many bytes the inode takes, with what stands behind it.
    pub open spec fn body_len(&self) -> int {
        let header = self.inode_size + self.xattrs@.len();
        if layout::is_compressed(self.layout) {
            layout::rounded(header, 8) + self.compression@.len()
        } else {
            header + self.inline@.len()
        }
    }

    pub fn body_size(&self) -> (size: u64)
        requires
            self.inode_size + self.xattrs@.len() + self.inline@.len() + self.compression@.len() + 8
                <= u64::MAX,
        ensures
            size == self.body_len(),
    {
        let header: u64 = self.inode_size as u64 + self.xattrs.len() as u64;
        if layout::erofs_inode_is_data_compressed(self.layout) {
            layout::round_up(header, 8) + self.compression.len() as u64
        } else {
            header + self.inline.len() as u64
        }
    }

    pub fn can_inline(&self, block_size: u32, enabled: bool) -> (can: bool)
        requires
            block_size > 0,
        ensures
            can == may_inline(
                self.size as int,
                self.inode_size as int,
                self.xattrs@.len() as int,
                block_size as int,
                enabled,
            ),
    {
        let tail: u64 = self.size % block_size as u64;
        enabled && tail != 0 && self.inode_size as u128 + self.xattrs.len() as u128 + tail as u128
            <= block_size as u128
    }
}

/// The size of a file: a directory's follows from what it lists.
pub open spec fn prepared_size(entries: Seq<Entry>, index: int, block_size: int) -> int {
    if layout::is_dir(entries[index].metadata.mode) {
        let list = directory::sorted(listing(entries, index));
        directory::size_of(list, block_size, list.len() as int)
    } else {
        entries[index].size as int
    }
}

/// True when `now` is entry `index` with its inode prepared.
pub open spec fn is_prepared(
    entries: Seq<Entry>,
    index: int,
    block_size: u32,
    inline_data: bool,
    epoch: u64,
    shared: Seq<(Seq<char>, Seq<u8>, u32)>,
    now: Entry,
) -> bool {
    let e = entries[index];
    let size = prepared_size(entries, index, block_size as int);
    let inlined = may_inline(
        size,
        now.inode_size as int,
        now.xattrs@.len() as int,
        block_size as int,
        inline_data,
    );
    &&& now.size == size
    &&& xattrs::encoded(xattrs::attributes(e.metadata.xattrs@), shared) == Ok::<
        Seq<u8>,
        xattrs::XattrError,
    >(now.xattrs@)
    &&& now.inode_size == if fits_compact(e, size, epoch) {
        32usize
    } else {
        64
    }
    &&& now.layout == if inlined {
        EROFS_INODE_FLAT_INLINE
    } else {
        e.layout
    }
    &&& now.inline@ == if inlined {
        bytes::filled(0, size % block_size as int)
    } else {
        e.inline@
    }
    &&& now == (Entry {
        size: now.size,
        xattrs: now.xattrs,
        inode_size: now.inode_size,
        layout: now.layout,
        inline: now.inline,
        ..e
    })
    &&& layout::is_dir(e.metadata.mode) ==> directory::all_short(
        directory::sorted(listing(entries, index)),
        block_size as int,
    )
}

/// The attributes of the first `n` files, of those that have their own inode.
pub open spec fn attribute_lists(entries: Seq<Entry>, n: int) -> Seq<Seq<(Seq<char>, Seq<u8>)>>
    decreases n,
{
    if n <= 0 {
        seq![]
    } else {
        let before = attribute_lists(entries, n - 1);
        if entries[n - 1].alias is None {
            before.push(xattrs::attributes(entries[n - 1].metadata.xattrs@))
        } else {
            before
        }
    }
}

fn count_attributes(entries: &Vec<Entry>) -> (list: Vec<Usage>)
    ensures
        xattrs::in_order(list@),
        forall|a: (Seq<char>, Seq<u8>)|
            #[trigger] xattrs::recorded(list@, a) == xattrs::uses(
                attribute_lists(entries@, entries@.len() as int),
                a,
            ),
{
    let mut list: Vec<Usage> = Vec::new();
    let mut n: usize = 0;
    let ghost mut most: int = 0;
    while n < entries.len()
        invariant
            n <= entries@.len(),
            xattrs::in_order(list@),
            forall|a: (Seq<char>, Seq<u8>)|
                #[trigger] xattrs::recorded(list@, a) == xattrs::uses(
                    attribute_lists(entries@, n as int),
                    a,
                ),
            0 <= most <= n * 0xffff_ffff_ffff_ffff,
            forall|i: int| 0 <= i < list@.len() ==> (#[trigger] list@[i]).count <= most,
        decreases entries@.len() - n,
    {
        let ghost before = list@;
        let ghost lists = attribute_lists(entries@, n as int);
        if entries[n].alias.is_none() {
            let attributes = &entries[n].metadata.xattrs;
            let ghost all = xattrs::attributes(attributes@);
            let ghost start = most;
            let mut k: usize = 0;
            assert(all.take(0) =~= Seq::<(Seq<char>, Seq<u8>)>::empty());
            while k < attributes.len()
                invariant
                    k <= attributes@.len(),
                    n < entries@.len(),
                    all == xattrs::attributes(attributes@),
                    xattrs::in_order(list@),
                    forall|a: (Seq<char>, Seq<u8>)|
                        #[trigger] xattrs::recorded(list@, a) == xattrs::recorded(before, a)
                            + xattrs::times(all.take(k as int), a),
                    start <= n * 0xffff_ffff_ffff_ffff,
                    most == start + k,
                    0 <= start,
                    forall|i: int| 0 <= i < list@.len() ==> (#[trigger] list@[i]).count <= most,
                decreases attributes@.len() - k,
            {
                let (name, value) = &attributes[k];
                assert(all[k as int] == (name@, value@));
                assert(entries.len() <= usize::MAX);
                assert(n * 0xffff_ffff_ffff_ffff + 0xffff_ffff_ffff_ffff < u128::MAX)
                    by (nonlinear_arith)
                    requires
                        n < 0xffff_ffff_ffff_ffff,
                ;
                let ghost old_list = list@;
                xattrs::count_use(&mut list, name.as_str(), value.as_slice(), Ghost(most));
                proof {
                    most = most + 1;
                    let now = all.take(k + 1);
                    assert(now.drop_last() =~= all.take(k as int));
                    assert forall|a: (Seq<char>, Seq<u8>)|
                        #[trigger] xattrs::recorded(list@, a) == xattrs::recorded(before, a)
                            + xattrs::times(now, a) by {
                        assert(xattrs::recorded(old_list, a) == xattrs::recorded(before, a)
                            + xattrs::times(all.take(k as int), a));
                    }
                }
                k += 1;
            }
            proof {
                assert(all.take(k as int) =~= all);
                let next = attribute_lists(entries@, n + 1);
                assert(next.drop_last() =~= lists);
                assert forall|a: (Seq<char>, Seq<u8>)|
                    #[trigger] xattrs::recorded(list@, a) == xattrs::uses(next, a) by {
                    assert(xattrs::recorded(before, a) == xattrs::uses(lists, a));
                }
                assert(most <= (n + 1) * 0xffff_ffff_ffff_ffff) by (nonlinear_arith)
                    requires
                        most == start + k,
                        start <= n * 0xffff_ffff_ffff_ffff,
                        k <= 0xffff_ffff_ffff_ffff,
                ;
            }
        } else {
            assert(most <= (n + 1) * 0xffff_ffff_ffff_ffff) by (nonlinear_arith)
                requires
                    most <= n * 0xffff_ffff_ffff_ffff,
            ;
        }
        n += 1;
    }
    list
}

/// Preparing inodes leaves what directories list as it is.
pub open spec fn lists_the_same(before: Seq<Entry>, now: Seq<Entry>) -> bool {
    &&& now.len() == before.len()
    &&& forall|i: int|
        0 <= i < before.len() ==> (#[trigger] now[i]).nid == before[i].nid && now[i].metadata
            == before[i].metadata && now[i].parent == before[i].parent && now[i].children
            == before[i].children && now[i].alias == before[i].alias
}

/// What directories list stays the same with them.
pub proof fn lemma_listing(before: Seq<Entry>, now: Seq<Entry>, index: int)
    requires
        is_tree(before),
        lists_the_same(before, now),
        0 <= index < before.len(),
    ensures
        listing(now, index) == listing(before, index),
        is_tree(now),
{
    assert(now[index].nid == before[index].nid);
    assert(now[before[index].parent as int].nid == before[before[index].parent as int].nid);
    let a = listing(before, index);
    let b = listing(now, index);
    assert forall|k: int| 0 <= k < a.len() implies a[k] == b[k] by {
        if k >= 2 {
            let child = before[index].children@[k - 2];
            assert(child.1 < before.len());
            assert(now[child.1 as int].nid == before[child.1 as int].nid);
        }
    }
    assert(a =~= b);
    assert forall|i: int| 0 <= i < now.len() implies {
        let e = #[trigger] now[i];
        &&& e.parent < now.len()
        &&& forall|k: int|
            0 <= k < e.children@.len() ==> (#[trigger] e.children@[k]).1 < now.len()
        &&& e.alias matches Some(j) ==> j < now.len()
    } by {
        assert(before[i].parent < before.len());
    }
}

fn prepare_entry(
    entries: &mut Vec<Entry>,
    index: usize,
    options: &BuildOptions,
    epoch: u64,
    shared: &Vec<SharedXattr>,
) -> (done: Result<(), EntryError>)
    requires
        is_tree(old(entries)@),
        index < old(entries)@.len(),
        old(entries)@[index as int].inline@.len() == 0,
        0 < options.block_size <= 4096,
    ensures
        match done {
            Ok(()) => {
                &&& final(entries)@.len() == old(entries)@.len()
                &&& forall|i: int|
                    0 <= i < old(entries)@.len() && i != index ==> final(entries)@[i] == old(
                        entries,
                    )@[i]
                &&& is_prepared(
                    old(entries)@,
                    index as int,
                    options.block_size,
                    options.inline_data,
                    epoch,
                    xattrs::table(shared@),
                    final(entries)@[index as int],
                )
            },
            Err(error) => prepare_error(
                old(entries)@,
                index as int,
                options.block_size as int,
                xattrs::table(shared@),
                error,
            ),
        },
{
    let ghost before = entries@;
    let mut size: u64 = entries[index].size;
    if layout::s_isdir(entries[index].metadata.mode) {
        let list = directory_entries(entries, index);
        match directory::directory_size(&list, options.block_size) {
            Ok(found) => {
                size = found;
            },
            Err(error) => {
                return Err(EntryError::Directory(error));
            },
        }
    }
    let encoded = match xattrs::encode_xattrs(&entries[index].metadata.xattrs, shared) {
        Ok(encoded) => encoded,
        Err(error) => {
            return Err(EntryError::Xattr(error));
        },
    };
    let e = &entries[index];
    let compact = size <= 0xffff_ffff && e.metadata.uid <= 0xffff && e.metadata.gid <= 0xffff
        && e.links <= 0xffff && e.metadata.mtime >= epoch && e.metadata.mtime - epoch
        <= 0xffff_ffff && e.metadata.mtime_nsec == 0;
    assert(compact == fits_compact(before[index as int], size as int, epoch));
    let inode_size: usize = if compact {
        32
    } else {
        64
    };
    entries[index].size = size;
    entries[index].xattrs = encoded;
    entries[index].inode_size = inode_size;
    if entries[index].can_inline(options.block_size, options.inline_data) {
        let tail: usize = (size % options.block_size as u64) as usize;
        let mut inline: Vec<u8> = Vec::new();
        bytes::push_filled(&mut inline, 0, tail);
        assert(inline@ =~= bytes::filled(0, size as int % options.block_size as int));
        entries[index].layout = EROFS_INODE_FLAT_INLINE;
        entries[index].inline = inline;
    }
    Ok(())
}

/// True when preparing file `index` fails with the error.
pub open spec fn prepare_error(
    entries: Seq<Entry>,
    index: int,
    block_size: int,
    shared: Seq<(Seq<char>, Seq<u8>, u32)>,
    error: EntryError,
) -> bool {
    let list = directory::sorted(listing(entries, index));
    match error {
        EntryError::Directory(directory::DirectoryError::EntryTooLong) => layout::is_dir(
            entries[index].metadata.mode,
        ) && !directory::all_short(list, block_size),
        EntryError::Directory(directory::DirectoryError::SizeOverflow) => layout::is_dir(
            entries[index].metadata.mode,
        ) && directory::size_of(list, block_size, list.len() as int) + block_size > u64::MAX,
        EntryError::Xattr(e) => (layout::is_dir(entries[index].metadata.mode)
            ==> directory::all_short(list, block_size)) && xattrs::encoded(
            xattrs::attributes(entries[index].metadata.xattrs@),
            shared,
        ) == Err::<Seq<u8>, xattrs::XattrError>(e),
        _ => false,
    }
}

/// True when every file that has its own inode is prepared, and no other one
/// changed.
pub open spec fn all_prepared(
    before: Seq<Entry>,
    now: Seq<Entry>,
    block_size: u32,
    inline_data: bool,
    epoch: u64,
    shared: Seq<(Seq<char>, Seq<u8>, u32)>,
    n: int,
) -> bool {
    &&& now.len() == before.len()
    &&& forall|i: int|
        0 <= i < before.len() ==> if i < n && before[i].alias is None {
            is_prepared(
                before,
                i,
                block_size,
                inline_data,
                epoch,
                shared,
                #[trigger] now[i],
            )
        } else {
            now[i] == before[i]
        }
}

/// True when `now` and `data` are what preparing makes of the files: inodes
/// that are prepared with one shared table, and the bytes of the table.
pub open spec fn prepares_to(
    before: Seq<Entry>,
    now: Seq<Entry>,
    tolerance: u32,
    block_size: u32,
    inline_data: bool,
    epoch: u64,
    data: Seq<u8>,
) -> bool {
    exists|shared: Seq<(Seq<char>, Seq<u8>, u32)>|
        {
            &&& #[trigger] xattrs::shares(
                attribute_lists(before, before.len() as int),
                tolerance as int,
                shared,
                data,
            )
            &&& all_prepared(
                before,
                now,
                block_size,
                inline_data,
                epoch,
                shared,
                before.len() as int,
            )
        }
}

/// Prepares the inodes of all files. Gives the shared attributes, which more
/// files use than the options tolerate copies of.
pub fn prepare_entries(entries: &mut Vec<Entry>, options: &BuildOptions, epoch: u64) -> (done: Result<
    Vec<u8>,
    EntryError,
>)
    requires
        is_tree(old(entries)@),
        forall|i: int|
            0 <= i < old(entries)@.len() ==> (#[trigger] old(entries)@[i]).inline@.len() == 0,
        0 < options.block_size <= 4096,
    ensures
        match done {
            Ok(data) => prepares_to(
                old(entries)@,
                final(entries)@,
                options.xattr_tolerance,
                options.block_size,
                options.inline_data,
                epoch,
                data@,
            ),
            Err(error) => fails_to_prepare(
                old(entries)@,
                options.xattr_tolerance,
                options.block_size,
                options.inline_data,
                epoch,
                error,
            ),
        },
{
    let ghost before = entries@;
    let usage = count_attributes(entries);
    let ghost lists = attribute_lists(before, before.len() as int);
    let (shared, data) = match xattrs::build_table(usage, options.xattr_tolerance, Ghost(lists)) {
        Ok(built) => built,
        Err(error) => {
            return Err(EntryError::Xattr(error));
        },
    };
    let ghost known = xattrs::table(shared@);
    let mut n: usize = 0;
    while n < entries.len()
        invariant
            n <= entries@.len(),
            is_tree(before),
            before == old(entries)@,
            entries@.len() == before.len(),
            forall|i: int| 0 <= i < before.len() ==> (#[trigger] before[i]).inline@.len() == 0,
            0 < options.block_size <= 4096,
            known == xattrs::table(shared@),
            lists == attribute_lists(before, before.len() as int),
            xattrs::shares(lists, options.xattr_tolerance as int, known, data@),
            lists_the_same(before, entries@),
            all_prepared(
                before,
                entries@,
                options.block_size,
                options.inline_data,
                epoch,
                known,
                n as int,
            ),
        decreases entries@.len() - n,
    {
        let ghost current = entries@;
        proof {
            lemma_listing(before, current, n as int);
            assert(current[n as int] == before[n as int]);
        }
        if entries[n].alias.is_none() {
            if let Err(error) = prepare_entry(entries, n, options, epoch, &shared) {
                assert(prepare_error(before, n as int, options.block_size as int, known, error));
                assert(all_prepared(
                    before,
                    current,
                    options.block_size,
                    options.inline_data,
                    epoch,
                    known,
                    n as int,
                ));
                return Err(error);
            }
            proof {
                assert(is_prepared(
                    before,
                    n as int,
                    options.block_size,
                    options.inline_data,
                    epoch,
                    known,
                    entries@[n as int],
                ));
                assert forall|i: int| 0 <= i < before.len() && i != n implies #[trigger] entries@[i]
                    == current[i] by {}
            }
        }
        n += 1;
    }
    Ok(data)
}

/// True when preparing the files fails with the error: an attribute that would
/// be shared cannot be stored, or else the first file that cannot.
pub open spec fn fails_to_prepare(
    before: Seq<Entry>,
    tolerance: u32,
    block_size: u32,
    inline_data: bool,
    epoch: u64,
    error: EntryError,
) -> bool {
    let lists = attribute_lists(before, before.len() as int);
    ||| exists|often: Seq<(Seq<char>, Seq<u8>)>|
        #[trigger] xattrs::is_shared_list(lists, tolerance as int, often) && error
            == EntryError::Xattr(xattrs::table_bytes(often, often.len() as int)->Err_0)
            && xattrs::table_bytes(often, often.len() as int) is Err
    ||| exists|shared: Seq<(Seq<char>, Seq<u8>, u32)>, data: Seq<u8>, now: Seq<Entry>, i: int|
        {
            &&& #[trigger] xattrs::shares(lists, tolerance as int, shared, data)
            &&& 0 <= i < before.len()
            &&& before[i].alias is None
            &&& #[trigger] all_prepared(
                before,
                now,
                block_size,
                inline_data,
                epoch,
                shared,
                i,
            )
            &&& prepare_error(before, i, block_size as int, shared, error)
        }
}

/// An inode is a short one of 32 bytes exactly where the size of its file has 32
/// bits, its owner, group and links have 16, and its time is that of the image or
/// at most 32 bits of seconds later, without nanoseconds; else it has 64 bytes. The
/// end of a file stands behind the inode where the options allow it and both fit in
/// one block.
pub proof fn law_inodes_are_as_short_as_possible(
    entries: Seq<Entry>,
    index: int,
    block_size: u32,
    inline_data: bool,
    epoch: u64,
    shared: Seq<(Seq<char>, Seq<u8>, u32)>,
    now: Entry,
)
    requires
        block_size > 0,
        is_prepared(entries, index, block_size, inline_data, epoch, shared, now),
        entries[index].layout == 0,
    ensures
        ({
            let m = entries[index].metadata;
            let short = now.size < 0x1_0000_0000 && m.uid < 65_536 && m.gid < 65_536
                && entries[index].links < 65_536 && epoch <= m.mtime && m.mtime - epoch
                < 0x1_0000_0000 && m.mtime_nsec == 0;
            let tail = now.size as int % block_size as int;
            let inlined = inline_data && tail > 0 && now.inode_size + now.xattrs@.len() + tail
                <= block_size;
            &&& short ==> now.inode_size == 32
            &&& !short ==> now.inode_size == 64
            &&& inlined ==> now.layout == 2 && now.inline@.len() == tail
            &&& !inlined ==> now.layout == 0
            &&& now.metadata == m && now.links == entries[index].links && now.nid
                == entries[index].nid
        }),
{
}

/// A directory lists itself as `.`, its parent as `..` and each of its children by
/// its name, each with its number and the type of its mode.
pub proof fn law_directories_list_their_children(entries: Seq<Entry>, index: int)
    ensures
        ({
            let e = entries[index];
            let list = listing(entries, index);
            &&& list.len() == e.children@.len() + 2
            &&& list[0].name == seq![46u8] && list[0].nid == e.nid && list[0].file_type == 2
            &&& list[1].name == seq![46u8, 46u8] && list[1].nid == entries[e.parent as int].nid
                && list[1].file_type == 2
            &&& forall|k: int|
                0 <= k < e.children@.len() ==> {
                    let child = #[trigger] e.children@[k];
                    &&& list[k + 2].name == child.0@
                    &&& list[k + 2].nid == entries[child.1 as int].nid
                    &&& list[k + 2].file_type == layout::ftype_of(
                        entries[child.1 as int].metadata.mode,
                    )
                }
        }),
{
}

/// The body of an inode is the inode with its attributes and its inline end, or its
/// indexes, which start at a multiple of eight.
pub proof fn law_bodies_hold_what_stands_behind(e: Entry)
    ensures
        ({
            let head = e.inode_size + e.xattrs@.len();
            &&& e.layout != 1 && e.layout != 3 ==> e.body_len() == head + e.inline@.len()
            &&& e.layout == 1 || e.layout == 3 ==> e.body_len() - e.compression@.len() >= head && (
            e.body_len() - e.compression@.len()) % 8 == 0 && e.body_len() - e.compression@.len()
                < head + 8
        }),
{
}

/// Attributes are counted over the files that have inodes of their own.
pub proof fn law_shared_inodes_count_once(entries: Seq<Entry>, n: int)
    requires
        0 < n <= entries.len(),
    ensures
        entries[n - 1].alias is Some ==> attribute_lists(entries, n) == attribute_lists(
            entries,
            n - 1,
        ),
        entries[n - 1].alias is None ==> attribute_lists(entries, n) == attribute_lists(
            entries,
            n - 1,
        ).push(xattrs::attributes(entries[n - 1].metadata.xattrs@)),
{
}

} // verus!
