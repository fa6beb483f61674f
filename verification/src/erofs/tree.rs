//! The files of an image: the tree that they form, their links, and the size
//! and layout of their inodes.

use vstd::prelude::*;

use crate::bytes;
use crate::erofs::directory;
use crate::erofs::directory::DirectoryError;
use crate::erofs::layout;
use crate::erofs::layout::{EROFS_FT_UNKNOWN, EROFS_INODE_FLAT_PLAIN, EROFS_NAME_LEN};
use crate::erofs::metadata::EntryMetadata;
use crate::erofs::xattrs;
use crate::erofs::xattrs::XattrError;
use crate::oeminfo::payload::text_of;
use crate::text;

verus! {

/// A file of the image.
#[derive(Debug)]
pub struct Entry {
    pub path: String,
    pub metadata: EntryMetadata,
    pub parent: usize,
    pub children: Vec<(Vec<u8>, usize)>,
    /// The entry whose inode this one shares.
    pub alias: Option<usize>,
    pub size: u64,
    pub links: u32,
    pub inode_size: usize,
    pub xattrs: Vec<u8>,
    pub layout: u8,
    pub data_union: u32,
    pub inline: Vec<u8>,
    pub compression: Vec<u8>,
    pub nid: u64,
}

/// Why a file cannot be put in an image.
#[derive(Debug, Clone, Copy, PartialEq, Eq, Structural)]
pub enum EntryError {
    InvalidMode,
    InvalidNanoseconds,
    UnsupportedType,
    DirectoryMismatch,
    FileMismatch,
    MissingSymlink,
    TooManyLinks,
    Xattr(XattrError),
    Directory(DirectoryError),
}

// ---------------------------------------------------------------------------
// Collecting
// ---------------------------------------------------------------------------

/// What is wrong with the metadata of a source file, the first thing that is.
pub open spec fn source_error(m: EntryMetadata, host_is_dir: bool, host_is_file: bool) -> Option<
    EntryError,
> {
    if m.mode > 0xffff {
        Some(EntryError::InvalidMode)
    } else if m.mtime_nsec >= 1_000_000_000 {
        Some(EntryError::InvalidNanoseconds)
    } else if layout::ftype_of(m.mode) == EROFS_FT_UNKNOWN {
        Some(EntryError::UnsupportedType)
    } else if layout::is_dir(m.mode) && !host_is_dir {
        Some(EntryError::DirectoryMismatch)
    } else if layout::is_reg(m.mode) && !host_is_file {
        Some(EntryError::FileMismatch)
    } else if layout::is_lnk(m.mode) && m.symlink is None {
        Some(EntryError::MissingSymlink)
    } else {
        None
    }
}

/// The size of a source file: that of a regular file is its length, that of a
/// link the length of its target.
pub open spec fn source_size(m: EntryMetadata, host_len: u64) -> int {
    if layout::is_reg(m.mode) {
        host_len as int
    } else if layout::is_lnk(m.mode) {
        vstd::utf8::encode_utf8(m.symlink->0@).len() as int
    } else {
        0
    }
}

impl Entry {
    /// Makes the entry of a source file, of whose kind and length `host_is_dir`,
    /// `host_is_file` and `host_len` tell.
    pub fn new(
        path: String,
        metadata: EntryMetadata,
        parent: usize,
        host_is_dir: bool,
        host_is_file: bool,
        host_len: u64,
    ) -> (entry: Result<Entry, EntryError>)
        ensures
            match entry {
                Ok(e) => {
                    &&& source_error(metadata, host_is_dir, host_is_file) is None
                    &&& e.path@ == path@
                    &&& e.metadata == metadata
                    &&& e.parent == parent
                    &&& e.children@.len() == 0
                    &&& e.alias is None
                    &&& e.size == source_size(metadata, host_len)
                    &&& e.links == if layout::is_dir(metadata.mode) {
                        2u32
                    } else {
                        1
                    }
                    &&& e.inode_size == 64
                    &&& e.xattrs@.len() == 0
                    &&& e.layout == EROFS_INODE_FLAT_PLAIN
                    &&& e.data_union == u32::MAX
                    &&& e.inline@.len() == 0
                    &&& e.compression@.len() == 0
                    &&& e.nid == 0
                },
                Err(error) => source_error(metadata, host_is_dir, host_is_file) == Some(error),
            },
    {
        if metadata.mode > 0xffff {
            return Err(EntryError::InvalidMode);
        }
        if metadata.mtime_nsec >= 1_000_000_000 {
            return Err(EntryError::InvalidNanoseconds);
        }
        if layout::erofs_mode_to_ftype(metadata.mode) == EROFS_FT_UNKNOWN {
            return Err(EntryError::UnsupportedType);
        }
        let is_dir = layout::s_isdir(metadata.mode);
        if is_dir && !host_is_dir {
            return Err(EntryError::DirectoryMismatch);
        }
        if layout::s_isreg(metadata.mode) && !host_is_file {
            return Err(EntryError::FileMismatch);
        }
        let size: u64 = if layout::s_isreg(metadata.mode) {
            host_len
        } else if layout::s_islnk(metadata.mode) {
            match &metadata.symlink {
                Some(target) => target.as_str().as_bytes().len() as u64,
                None => {
                    return Err(EntryError::MissingSymlink);
                },
            }
        } else {
            0
        };
        Ok(
            Entry {
                path,
                metadata,
                parent,
                children: Vec::new(),
                alias: None,
                size,
                links: if is_dir {
                    2
                } else {
                    1
                },
                inode_size: 64,
                xattrs: Vec::new(),
                layout: EROFS_INODE_FLAT_PLAIN,
                data_union: 0xffff_ffff,
                inline: Vec::new(),
                compression: Vec::new(),
                nid: 0,
            },
        )
    }
}

/// True for the names that a directory can hold.
pub open spec fn is_entry_name(name: Seq<char>) -> bool {
    0 < vstd::utf8::encode_utf8(name).len() <= EROFS_NAME_LEN && !vstd::utf8::encode_utf8(
        name,
    ).contains(0)
}

pub fn is_valid_name(name: &str) -> (is: bool)
    ensures
        is == is_entry_name(name@),
{
    let data = name.as_bytes();
    if data.len() == 0 || data.len() > EROFS_NAME_LEN {
        return false;
    }
    let mut i: usize = 0;
    while i < data.len()
        invariant
            i <= data@.len(),
            data@ == vstd::utf8::encode_utf8(name@),
            forall|k: int| 0 <= k < i ==> data@[k] != 0,
        decreases data@.len() - i,
    {
        if data[i] == 0 {
            assert(data@[i as int] == 0);
            return false;
        }
        i += 1;
    }
    true
}

/// The path of a file in a directory.
pub open spec fn joined_path(directory: Seq<char>, name: Seq<char>) -> Seq<char> {
    if directory == "/"@ {
        "/"@ + name
    } else {
        directory + "/"@ + name
    }
}

pub fn child_path(directory: &str, name: &str) -> (path: String)
    ensures
        path@ == joined_path(directory@, name@),
{
    let mut out: Vec<char> = Vec::new();
    if !text::same_text(directory, "/") {
        text::append_text(&mut out, directory);
    }
    text::append_text(&mut out, "/");
    text::append_text(&mut out, name);
    assert(out@ =~= joined_path(directory@, name@));
    text::string_of(out.as_slice())
}

/// Where a child goes among those that are there: behind all whose name is not
/// larger.
pub open spec fn child_place(children: Seq<(Vec<u8>, usize)>, name: Seq<u8>) -> int
    decreases children.len(),
{
    if children.len() > 0 && directory::precedes(name, children.last().0@) {
        child_place(children.drop_last(), name)
    } else {
        children.len() as int
    }
}

/// Lists a file in a directory. A directory that is listed links back to it.
pub fn attach_child(entries: &mut Vec<Entry>, parent: usize, name: &str, child: usize) -> (done: Result<
    (),
    EntryError,
>)
    requires
        parent < old(entries)@.len(),
        child < old(entries)@.len(),
        parent != child,
    ensures
        ({
            let p = old(entries)@[parent as int];
            let q = final(entries)@[parent as int];
            let is_dir = layout::is_dir(old(entries)@[child as int].metadata.mode);
            let place = child_place(p.children@, vstd::utf8::encode_utf8(name@));
            &&& final(entries)@.len() == old(entries)@.len()
            &&& forall|i: int|
                0 <= i < old(entries)@.len() && i != parent ==> final(entries)@[i] == old(
                    entries,
                )@[i]
            &&& match done {
                Ok(()) => {
                    &&& q.links == p.links + if is_dir {
                        1int
                    } else {
                        0
                    }
                    &&& q.children@.len() == p.children@.len() + 1
                    &&& 0 <= place <= p.children@.len()
                    &&& forall|i: int| 0 <= i < place ==> q.children@[i] == p.children@[i]
                    &&& q.children@[place].0@ == vstd::utf8::encode_utf8(name@)
                    &&& q.children@[place].1 == child
                    &&& forall|i: int|
                        place < i < q.children@.len() ==> q.children@[i] == p.children@[i - 1]
                    &&& q == (Entry { links: q.links, children: q.children, ..p })
                },
                Err(error) => error == EntryError::TooManyLinks && is_dir && p.links == u32::MAX
                    && q == p,
            }
        }),
{
    let is_dir = layout::s_isdir(entries[child].metadata.mode);
    if is_dir && entries[parent].links == 0xffff_ffff {
        return Err(EntryError::TooManyLinks);
    }
    let data = name.as_bytes();
    let copy = bytes::copy_range(data, 0, data.len());
    assert(copy@ =~= data@);
    let ghost all = entries@[parent as int].children@;
    let mut at: usize = entries[parent].children.len();
    assert(all.take(at as int) =~= all);
    while at > 0 && directory::comes_before(
        copy.as_slice(),
        entries[parent].children[at - 1].0.as_slice(),
    )
        invariant
            parent < entries@.len(),
            entries@ == old(entries)@,
            all == entries@[parent as int].children@,
            at <= all.len(),
            child_place(all, copy@) == child_place(all.take(at as int), copy@),
        decreases at,
    {
        assert(all.take(at as int).drop_last() =~= all.take(at - 1));
        assert(all.take(at as int).last() == all[at - 1]);
        at -= 1;
    }
    proof {
        if at > 0 {
            assert(all.take(at as int).last() == all[at - 1]);
        }
        assert(child_place(all, copy@) == at);
    }
    if is_dir {
        entries[parent].links = entries[parent].links + 1;
    }
    entries[parent].children.insert(at, (copy, child));
    Ok(())
}

// ---------------------------------------------------------------------------
// Hard links
// ---------------------------------------------------------------------------

/// What two files share when they may be links to one inode: the node that was
/// recorded for them, or the device and node of the source.
#[derive(Debug, Clone, Copy, PartialEq, Eq, Structural)]
pub enum LinkIdentity {
    Original(u64),
    Host(u64, u64),
}

/// What a file shares with its hard links. A directory has none. A file with
/// more than one link in the source goes by its place there; any other by the
/// node that was recorded for it, if one was.
pub open spec fn shared_identity(
    is_directory: bool,
    links: u64,
    device: u64,
    inode: u64,
    original: Option<u64>,
) -> Option<LinkIdentity> {
    if is_directory {
        None
    } else if links > 1 {
        Some(LinkIdentity::Host(device, inode))
    } else {
        match original {
            Some(nid) => Some(LinkIdentity::Original(nid)),
            None => None,
        }
    }
}

/// Tells by what a file is matched with its hard links.
pub fn hardlink_identity(
    is_directory: bool,
    links: u64,
    device: u64,
    inode: u64,
    original: Option<u64>,
) -> (identity: Option<LinkIdentity>)
    ensures
        identity == shared_identity(is_directory, links, device, inode, original),
{
    if is_directory {
        return None;
    }
    if links > 1 {
        return Some(LinkIdentity::Host(device, inode));
    }
    match original {
        Some(nid) => Some(LinkIdentity::Original(nid)),
        None => None,
    }
}

/// True when the recorded metadata of two files is the same.
pub open spec fn same_metadata(a: Entry, b: Entry) -> bool {
    &&& a.size == b.size
    &&& a.metadata.mode == b.metadata.mode
    &&& a.metadata.uid == b.metadata.uid
    &&& a.metadata.gid == b.metadata.gid
    &&& a.metadata.mtime == b.metadata.mtime
    &&& a.metadata.mtime_nsec == b.metadata.mtime_nsec
    &&& a.metadata.rdev == b.metadata.rdev
    &&& xattrs::attributes(a.metadata.xattrs@) == xattrs::attributes(b.metadata.xattrs@)
    &&& text_of(a.metadata.symlink) == text_of(b.metadata.symlink)
}

fn same_attributes(a: &Vec<(String, Vec<u8>)>, b: &Vec<(String, Vec<u8>)>) -> (same: bool)
    ensures
        same == (xattrs::attributes(a@) == xattrs::attributes(b@)),
{
    if a.len() != b.len() {
        assert(xattrs::attributes(a@).len() != xattrs::attributes(b@).len());
        return false;
    }
    let ghost left = xattrs::attributes(a@);
    let ghost right = xattrs::attributes(b@);
    let mut i: usize = 0;
    while i < a.len()
        invariant
            i <= a@.len(),
            a@.len() == b@.len(),
            left == xattrs::attributes(a@),
            right == xattrs::attributes(b@),
            forall|k: int| 0 <= k < i ==> left[k] == right[k],
        decreases a@.len() - i,
    {
        assert(left[i as int] == (a@[i as int].0@, a@[i as int].1@));
        assert(right[i as int] == (b@[i as int].0@, b@[i as int].1@));
        if !text::same_text(a[i].0.as_str(), b[i].0.as_str()) || !bytes::same_bytes(
            a[i].1.as_slice(),
            b[i].1.as_slice(),
        ) {
            return false;
        }
        i += 1;
    }
    assert(left =~= right);
    true
}

fn same_target(a: &Option<String>, b: &Option<String>) -> (same: bool)
    ensures
        same == (text_of(*a) == text_of(*b)),
{
    match (a, b) {
        (Some(x), Some(y)) => text::same_text(x.as_str(), y.as_str()),
        (None, None) => true,
        _ => false,
    }
}

pub fn equivalent_metadata(a: &Entry, b: &Entry) -> (same: bool)
    ensures
        same == same_metadata(*a, *b),
{
    a.size == b.size && a.metadata.mode == b.metadata.mode && a.metadata.uid == b.metadata.uid
        && a.metadata.gid == b.metadata.gid && a.metadata.mtime == b.metadata.mtime
        && a.metadata.mtime_nsec == b.metadata.mtime_nsec && a.metadata.rdev == b.metadata.rdev
        && same_attributes(&a.metadata.xattrs, &b.metadata.xattrs) && same_target(
        &a.metadata.symlink,
        &b.metadata.symlink,
    )
}

/// The digest of the contents of a file, where it is known.
pub open spec fn digest_of(digests: Seq<Option<Vec<u8>>>, i: int) -> Option<Seq<u8>> {
    match digests[i] {
        Some(digest) => Some(digest@),
        None => None,
    }
}

/// True when files `i` and `j` are links to one inode: no directories, of one
/// identity, with the same metadata and, if they are regular, contents.
pub open spec fn are_linked(
    entries: Seq<Entry>,
    identities: Seq<Option<LinkIdentity>>,
    digests: Seq<Option<Vec<u8>>>,
    i: int,
    j: int,
) -> bool {
    &&& !layout::is_dir(entries[i].metadata.mode)
    &&& !layout::is_dir(entries[j].metadata.mode)
    &&& identities[i] is Some
    &&& identities[i] == identities[j]
    &&& same_metadata(entries[i], entries[j])
    &&& layout::is_reg(entries[i].metadata.mode) ==> digest_of(digests, i) is Some && digest_of(
        digests,
        i,
    ) == digest_of(digests, j)
}

/// The file whose inode file `i` shares: the first one before it that is linked
/// to it and has an inode of its own.
pub open spec fn alias_of(
    entries: Seq<Entry>,
    identities: Seq<Option<LinkIdentity>>,
    digests: Seq<Option<Vec<u8>>>,
    i: int,
) -> Option<int>
    decreases i, i + 1,
{
    if i < 0 {
        None
    } else {
        first_link(entries, identities, digests, i, 0)
    }
}

/// The first file from `from` on, before `i`, that is linked to `i` and has an
/// inode of its own.
pub open spec fn first_link(
    entries: Seq<Entry>,
    identities: Seq<Option<LinkIdentity>>,
    digests: Seq<Option<Vec<u8>>>,
    i: int,
    from: int,
) -> Option<int>
    decreases i, i - from,
{
    if from < 0 || from >= i {
        None
    } else if are_linked(entries, identities, digests, from, i) && alias_of(
        entries,
        identities,
        digests,
        from,
    ) is None {
        Some(from)
    } else {
        first_link(entries, identities, digests, i, from + 1)
    }
}

/// How many of the first `n` files share the inode of file `i`.
pub open spec fn alias_count(
    entries: Seq<Entry>,
    identities: Seq<Option<LinkIdentity>>,
    digests: Seq<Option<Vec<u8>>>,
    i: int,
    n: int,
) -> nat
    decreases n,
{
    if n <= 0 {
        0
    } else {
        alias_count(entries, identities, digests, i, n - 1) + if alias_of(
            entries,
            identities,
            digests,
            n - 1,
        ) == Some(i) {
            1nat
        } else {
            0nat
        }
    }
}

/// True when a file may be found to share an inode, so that the digest of its
/// contents is asked for: some other file has its identity and its metadata.
pub open spec fn digest_matters(
    entries: Seq<Entry>,
    identities: Seq<Option<LinkIdentity>>,
    i: int,
) -> bool {
    &&& layout::is_reg(entries[i].metadata.mode)
    &&& identities[i] is Some
    &&& exists|j: int|
        0 <= j < entries.len() && j != i && identities[j] == identities[i] && same_metadata(
            entries[i],
            #[trigger] entries[j],
        )
}

fn same_identity(a: &Option<LinkIdentity>, b: &Option<LinkIdentity>) -> (same: bool)
    ensures
        same == (*a is Some && *a == *b),
{
    match (a, b) {
        (Some(x), Some(y)) => *x == *y,
        _ => false,
    }
}

pub fn needs_digest(
    entries: &Vec<Entry>,
    identities: &Vec<Option<LinkIdentity>>,
    i: usize,
) -> (needs: bool)
    requires
        i < entries@.len(),
        identities@.len() == entries@.len(),
    ensures
        needs == digest_matters(entries@, identities@, i as int),
{
    if !layout::s_isreg(entries[i].metadata.mode) || identities[i].is_none() {
        return false;
    }
    let mut j: usize = 0;
    while j < entries.len()
        invariant
            j <= entries@.len(),
            i < entries@.len(),
            identities@.len() == entries@.len(),
            layout::is_reg(entries@[i as int].metadata.mode),
            identities@[i as int] is Some,
            forall|k: int|
                0 <= k < j && k != i && identities@[k] == identities@[i as int] ==> !same_metadata(
                    entries@[i as int],
                    #[trigger] entries@[k],
                ),
        decreases entries@.len() - j,
    {
        if j != i && same_identity(&identities[i], &identities[j]) && equivalent_metadata(
            &entries[i],
            &entries[j],
        ) {
            assert(same_metadata(entries@[i as int], entries@[j as int]));
            return true;
        }
        j += 1;
    }
    false
}

fn linked(
    entries: &Vec<Entry>,
    identities: &Vec<Option<LinkIdentity>>,
    digests: &Vec<Option<Vec<u8>>>,
    i: usize,
    j: usize,
) -> (is: bool)
    requires
        i < entries@.len(),
        j < entries@.len(),
        identities@.len() == entries@.len(),
        digests@.len() == entries@.len(),
    ensures
        is == are_linked(entries@, identities@, digests@, i as int, j as int),
{
    if layout::s_isdir(entries[i].metadata.mode) || layout::s_isdir(entries[j].metadata.mode)
        || !same_identity(&identities[i], &identities[j]) || !equivalent_metadata(
        &entries[i],
        &entries[j],
    ) {
        return false;
    }
    if layout::s_isreg(entries[i].metadata.mode) {
        match (&digests[i], &digests[j]) {
            (Some(a), Some(b)) => bytes::same_bytes(a.as_slice(), b.as_slice()),
            _ => false,
        }
    } else {
        true
    }
}

/// True when `now` is `before` with other links and another alias.
pub open spec fn only_links_differ(before: Entry, now: Entry) -> bool {
    now == (Entry { alias: now.alias, links: now.links, ..before })
}

proof fn lemma_alias(
    entries: Seq<Entry>,
    identities: Seq<Option<LinkIdentity>>,
    digests: Seq<Option<Vec<u8>>>,
    i: int,
    from: int,
)
    requires
        0 <= from <= i,
    ensures
        match first_link(entries, identities, digests, i, from) {
            Some(j) => from <= j < i && alias_of(entries, identities, digests, j) is None
                && are_linked(entries, identities, digests, j, i),
            None => true,
        },
    decreases i - from,
{
    if from < i {
        lemma_alias(entries, identities, digests, i, from + 1);
    }
}

/// A file that shares an inode shares that of an earlier file, which has its
/// own and the same metadata.
pub proof fn law_aliases_lead_to_an_inode(
    entries: Seq<Entry>,
    identities: Seq<Option<LinkIdentity>>,
    digests: Seq<Option<Vec<u8>>>,
    i: int,
)
    requires
        0 <= i < entries.len(),
        alias_of(entries, identities, digests, i) is Some,
    ensures
        ({
            let j = alias_of(entries, identities, digests, i)->0;
            &&& 0 <= j < i
            &&& alias_of(entries, identities, digests, j) is None
            &&& are_linked(entries, identities, digests, j, i)
        }),
{
    lemma_alias(entries, identities, digests, i, 0);
}

/// Links that are only set differ in nothing that decides on links.
proof fn lemma_links_kept(
    before: Seq<Entry>,
    now: Seq<Entry>,
    identities: Seq<Option<LinkIdentity>>,
    digests: Seq<Option<Vec<u8>>>,
    i: int,
    j: int,
)
    requires
        0 <= i < before.len(),
        0 <= j < before.len(),
        now.len() == before.len(),
        forall|k: int| 0 <= k < before.len() ==> only_links_differ(before[k], #[trigger] now[k]),
    ensures
        are_linked(now, identities, digests, i, j) == are_linked(
            before,
            identities,
            digests,
            i,
            j,
        ),
{
    assert(only_links_differ(before[i], now[i]));
    assert(only_links_differ(before[j], now[j]));
}

/// Finds the files that share an inode. `identities` and `digests` tell for
/// each file what it may share, and the digest of its contents.
pub fn resolve_hardlinks(
    entries: &mut Vec<Entry>,
    identities: &Vec<Option<LinkIdentity>>,
    digests: &Vec<Option<Vec<u8>>>,
) -> (done: Result<(), EntryError>)
    requires
        identities@.len() == old(entries)@.len(),
        digests@.len() == old(entries)@.len(),
        forall|i: int| 0 <= i < old(entries)@.len() ==> (#[trigger] old(entries)@[i]).alias is None,
    ensures
        final(entries)@.len() == old(entries)@.len(),
        forall|i: int|
            0 <= i < old(entries)@.len() ==> only_links_differ(
                old(entries)@[i],
                #[trigger] final(entries)@[i],
            ),
        match done {
            Ok(()) => forall|i: int|
                0 <= i < old(entries)@.len() ==> {
                    let e = #[trigger] final(entries)@[i];
                    &&& match e.alias {
                        Some(j) => alias_of(old(entries)@, identities@, digests@, i) == Some(
                            j as int,
                        ) && j < i,
                        None => alias_of(old(entries)@, identities@, digests@, i) is None,
                    }
                    &&& e.links == old(entries)@[i].links + alias_count(
                        old(entries)@,
                        identities@,
                        digests@,
                        i,
                        old(entries)@.len() as int,
                    )
                },
            Err(error) => error == EntryError::TooManyLinks && exists|i: int|
                0 <= i < old(entries)@.len() && (#[trigger] old(entries)@[i]).links + alias_count(
                    old(entries)@,
                    identities@,
                    digests@,
                    i,
                    old(entries)@.len() as int,
                ) > u32::MAX,
        },
{
    let ghost all = entries@;
    let ghost total = all.len() as int;
    let mut n: usize = 0;
    while n < entries.len()
        invariant
            n <= entries@.len(),
            all == old(entries)@,
            total == all.len(),
            entries@.len() == all.len(),
            identities@.len() == all.len(),
            digests@.len() == all.len(),
            forall|i: int| 0 <= i < all.len() ==> only_links_differ(all[i], #[trigger] entries@[i]),
            forall|i: int|
                0 <= i < n ==> match (#[trigger] entries@[i]).alias {
                    Some(j) => alias_of(all, identities@, digests@, i) == Some(j as int) && j < i,
                    None => alias_of(all, identities@, digests@, i) is None,
                },
            forall|i: int| n <= i < all.len() ==> (#[trigger] entries@[i]).alias is None,
            forall|i: int|
                0 <= i < all.len() ==> (#[trigger] entries@[i]).links == all[i].links + alias_count(
                    all,
                    identities@,
                    digests@,
                    i,
                    n as int,
                ),
        decreases entries@.len() - n,
    {
        let mut from: usize = 0;
        let mut found: Option<usize> = None;
        while from < n && found.is_none()
            invariant
                from <= n < entries@.len(),
                entries@.len() == all.len(),
                identities@.len() == all.len(),
                digests@.len() == all.len(),
                forall|i: int|
                    0 <= i < all.len() ==> only_links_differ(all[i], #[trigger] entries@[i]),
                forall|i: int|
                    0 <= i < n ==> match (#[trigger] entries@[i]).alias {
                        Some(j) => alias_of(all, identities@, digests@, i) == Some(j as int) && j
                            < i,
                        None => alias_of(all, identities@, digests@, i) is None,
                    },
                match found {
                    Some(j) => j < n && first_link(all, identities@, digests@, n as int, 0) == Some(
                        j as int,
                    ),
                    None => first_link(all, identities@, digests@, n as int, 0) == first_link(
                        all,
                        identities@,
                        digests@,
                        n as int,
                        from as int,
                    ),
                },
            decreases (n - from) + if found is None {
                1int
            } else {
                0
            },
        {
            let has_own = entries[from].alias.is_none();
            proof {
                lemma_links_kept(all, entries@, identities@, digests@, from as int, n as int);
                assert(entries@[from as int].alias is None == alias_of(
                    all,
                    identities@,
                    digests@,
                    from as int,
                ) is None);
            }
            if has_own && linked(entries, identities, digests, from, n) {
                found = Some(from);
            } else {
                from += 1;
            }
        }
        assert(alias_of(all, identities@, digests@, n as int) == first_link(
            all,
            identities@,
            digests@,
            n as int,
            0,
        ));
        if let Some(j) = found {
            if entries[j].links == 0xffff_ffff {
                proof {
                    assert(entries@[j as int].links == all[j as int].links + alias_count(
                        all,
                        identities@,
                        digests@,
                        j as int,
                        n as int,
                    ));
                    assert(alias_count(all, identities@, digests@, j as int, n + 1) == alias_count(
                        all,
                        identities@,
                        digests@,
                        j as int,
                        n as int,
                    ) + 1);
                    lemma_alias_count_grows(all, identities@, digests@, j as int, n + 1, total);
                    assert(all[j as int].links + alias_count(
                        all,
                        identities@,
                        digests@,
                        j as int,
                        total,
                    ) > u32::MAX);
                }
                return Err(EntryError::TooManyLinks);
            }
            let ghost before = entries@;
            entries[j].links = entries[j].links + 1;
            entries[n].alias = Some(j);
            proof {
                assert forall|i: int| 0 <= i < all.len() implies only_links_differ(
                    all[i],
                    #[trigger] entries@[i],
                ) by {
                    assert(only_links_differ(all[i], before[i]));
                }
                assert forall|i: int| 0 <= i < all.len() implies (#[trigger] entries@[i]).links
                    == all[i].links + alias_count(all, identities@, digests@, i, n + 1) by {
                    assert(before[i].links == all[i].links + alias_count(
                        all,
                        identities@,
                        digests@,
                        i,
                        n as int,
                    ));
                }
                assert forall|i: int| 0 <= i < n + 1 implies match (#[trigger] entries@[i]).alias {
                    Some(k) => alias_of(all, identities@, digests@, i) == Some(k as int) && k < i,
                    None => alias_of(all, identities@, digests@, i) is None,
                } by {
                    if i < n {
                        assert(before[i].alias == entries@[i].alias);
                    }
                }
            }
        } else {
            proof {
                assert(first_link(all, identities@, digests@, n as int, from as int) is None);
                assert forall|i: int| 0 <= i < all.len() implies (#[trigger] entries@[i]).links
                    == all[i].links + alias_count(all, identities@, digests@, i, n + 1) by {}
            }
        }
        n += 1;
    }
    Ok(())
}

proof fn lemma_alias_count_grows(
    entries: Seq<Entry>,
    identities: Seq<Option<LinkIdentity>>,
    digests: Seq<Option<Vec<u8>>>,
    i: int,
    n: int,
    m: int,
)
    requires
        0 <= n <= m,
    ensures
        alias_count(entries, identities, digests, i, n) <= alias_count(
            entries,
            identities,
            digests,
            i,
            m,
        ),
    decreases m - n,
{
    if n < m {
        lemma_alias_count_grows(entries, identities, digests, i, n, m - 1);
    }
}

/// A source file is refused where its mode has more than 16 bits or names no kind of
/// file, where its nanoseconds are not less than a second, where it is no directory
/// or regular file though its mode says so, or where it is a link without a target.
pub proof fn law_sound_sources_are_taken(m: EntryMetadata, host_is_dir: bool, host_is_file: bool)
    ensures
        ({
            let kind = m.mode as int / 0x1000 % 16;
            let known = kind == 1 || kind == 2 || kind == 4 || kind == 6 || kind == 8 || kind == 10
                || kind == 12;
            &&& source_error(m, host_is_dir, host_is_file) is None <==> {
                &&& m.mode <= 0xffff && m.mtime_nsec < 1_000_000_000 && known
                &&& kind == 4 ==> host_is_dir
                &&& kind == 8 ==> host_is_file
                &&& kind == 10 ==> m.symlink is Some
            }
            &&& source_error(m, host_is_dir, host_is_file) == Some(EntryError::UnsupportedType)
                ==> !known
            &&& source_error(m, host_is_dir, host_is_file) == Some(EntryError::DirectoryMismatch)
                ==> kind == 4 && !host_is_dir
            &&& source_error(m, host_is_dir, host_is_file) == Some(EntryError::FileMismatch) ==> kind
                == 8 && !host_is_file
            &&& source_error(m, host_is_dir, host_is_file) == Some(EntryError::MissingSymlink)
                ==> kind == 10 && m.symlink is None
        }),
{
}

/// A regular file is as large as its contents, a link as its target in UTF-8, and
/// other files have no size yet.
pub proof fn law_sizes_of_sources(m: EntryMetadata, host_len: u64)
    ensures
        ({
            let kind = m.mode as int / 0x1000 % 16;
            &&& kind == 8 ==> source_size(m, host_len) == host_len
            &&& kind == 10 ==> source_size(m, host_len) == vstd::utf8::encode_utf8(
                m.symlink->0@,
            ).len()
            &&& kind != 8 && kind != 10 ==> source_size(m, host_len) == 0
        }),
{
}

/// A child's path is that of its directory, a slash and its name.
pub proof fn law_children_stand_below_their_directory(directory: Seq<char>, name: Seq<char>)
    ensures
        joined_path(seq!['/'], name) == seq!['/'] + name,
        directory != seq!['/'] ==> joined_path(directory, name) == directory + seq!['/'] + name,
{
    reveal_strlit("/");
    assert("/"@ =~= seq!['/']);
}

/// A name of a file has 1 to 255 bytes, none of them zero.
pub proof fn law_names_have_a_length(name: Seq<char>)
    ensures
        is_entry_name(name) <==> {
            let data = vstd::utf8::encode_utf8(name);
            1 <= data.len() <= 255 && forall|i: int| 0 <= i < data.len() ==> #[trigger] data[i] != 0
        },
{
    let data = vstd::utf8::encode_utf8(name);
    if data.contains(0) {
        let i = choose|i: int| 0 <= i < data.len() && data[i] == 0;
        assert(data[i] == 0);
    }
}

/// A child is put before the first name that is larger and behind all others.
pub proof fn law_children_stay_in_order(children: Seq<(Vec<u8>, usize)>, name: Seq<u8>)
    ensures
        ({
            let at = child_place(children, name);
            &&& 0 <= at <= children.len()
            &&& forall|i: int|
                at <= i < children.len() ==> directory::precedes(name, (#[trigger] children[i]).0@)
            &&& at > 0 ==> !directory::precedes(name, children[at - 1].0@)
        }),
    decreases children.len(),
{
    if children.len() > 0 && directory::precedes(name, children.last().0@) {
        let less = children.drop_last();
        law_children_stay_in_order(less, name);
        let at = child_place(children, name);
        assert forall|i: int| at <= i < children.len() implies directory::precedes(
            name,
            (#[trigger] children[i]).0@,
        ) by {
            if i < less.len() {
                assert(less[i] == children[i]);
            }
        }
    }
}

/// Directories are never linked. A file with more than one link on the host is
/// matched by its device and inode there, and another one by the inode that was
/// recorded of it.
pub proof fn law_links_are_matched(links: u64, device: u64, inode: u64, original: Option<u64>)
    ensures
        shared_identity(true, links, device, inode, original) is None,
        links > 1 ==> shared_identity(false, links, device, inode, original) == Some(
            LinkIdentity::Host(device, inode),
        ),
        links <= 1 && original is Some ==> shared_identity(false, links, device, inode, original)
            == Some(LinkIdentity::Original(original->0)),
        links <= 1 && original is None ==> shared_identity(
            false,
            links,
            device,
            inode,
            original,
        ) is None,
{
}

/// A file shares the inode of the first file before it that is linked to it and has
/// one of its own; it has its own where there is none.
pub proof fn law_the_first_link_has_the_inode(
    entries: Seq<Entry>,
    identities: Seq<Option<LinkIdentity>>,
    digests: Seq<Option<Vec<u8>>>,
    i: int,
    k: int,
)
    requires
        0 <= k < i < entries.len(),
        are_linked(entries, identities, digests, k, i),
        alias_of(entries, identities, digests, k) is None,
    ensures
        alias_of(entries, identities, digests, i) is Some,
        alias_of(entries, identities, digests, i)->0 <= k,
{
    lemma_first_link(entries, identities, digests, i, 0, k);
}

proof fn lemma_first_link(
    entries: Seq<Entry>,
    identities: Seq<Option<LinkIdentity>>,
    digests: Seq<Option<Vec<u8>>>,
    i: int,
    from: int,
    k: int,
)
    requires
        0 <= from <= k < i,
        are_linked(entries, identities, digests, k, i),
        alias_of(entries, identities, digests, k) is None,
    ensures
        first_link(entries, identities, digests, i, from) is Some,
        first_link(entries, identities, digests, i, from)->0 <= k,
    decreases k - from,
{
    if from < k {
        lemma_first_link(entries, identities, digests, i, from + 1, k);
    }
}

/// Linked files agree in all that an inode records, and regular ones in their
/// contents.
pub proof fn law_linked_files_agree(
    entries: Seq<Entry>,
    identities: Seq<Option<LinkIdentity>>,
    digests: Seq<Option<Vec<u8>>>,
    i: int,
    j: int,
)
    requires
        are_linked(entries, identities, digests, i, j),
    ensures
        ({
            let a = entries[i];
            let b = entries[j];
            let kind = a.metadata.mode as int / 0x1000 % 16;
            &&& kind != 4
            &&& a.size == b.size && a.metadata.mode == b.metadata.mode
            &&& a.metadata.uid == b.metadata.uid && a.metadata.gid == b.metadata.gid
            &&& a.metadata.mtime == b.metadata.mtime && a.metadata.mtime_nsec
                == b.metadata.mtime_nsec
            &&& a.metadata.rdev == b.metadata.rdev
            &&& identities[i] is Some && identities[i] == identities[j]
            &&& kind == 8 ==> digests[i] is Some && digests[j] is Some && digests[i]->0@
                == digests[j]->0@
        }),
{
}

/// A file has as many links besides its own as files share its inode.
pub proof fn law_links_are_counted(
    entries: Seq<Entry>,
    identities: Seq<Option<LinkIdentity>>,
    digests: Seq<Option<Vec<u8>>>,
    i: int,
    n: int,
)
    requires
        0 <= n,
    ensures
        alias_count(entries, identities, digests, i, 0) == 0,
        alias_count(entries, identities, digests, i, n + 1) == alias_count(
            entries,
            identities,
            digests,
            i,
            n,
        ) + if alias_of(entries, identities, digests, n) == Some(i) {
            1int
        } else {
            0int
        },
{
}

/// The contents of a file are compared where it is a regular one and another file of
/// its identity agrees with it in everything else.
pub proof fn law_contents_are_compared_where_needed(
    entries: Seq<Entry>,
    identities: Seq<Option<LinkIdentity>>,
    digests: Seq<Option<Vec<u8>>>,
    i: int,
    j: int,
)
    requires
        0 <= i < entries.len(),
        0 <= j < entries.len(),
        i != j,
        are_linked(entries, identities, digests, i, j),
    ensures
        entries[i].metadata.mode as int / 0x1000 % 16 == 8 ==> digest_matters(
            entries,
            identities,
            i,
        ),
        entries[i].metadata.mode as int / 0x1000 % 16 != 8 ==> !digest_matters(
            entries,
            identities,
            i,
        ),
{
    assert(same_metadata(entries[i], entries[j]));
}

} // verus!
