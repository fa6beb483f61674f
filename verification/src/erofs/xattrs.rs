//! Extended attributes: those of one inode, and those that inodes share.

use vstd::prelude::*;

use crate::bytes;
use crate::erofs::directory;
use crate::erofs::layout::{
    EROFS_XATTR_INDEX_POSIX_ACL_ACCESS, EROFS_XATTR_INDEX_POSIX_ACL_DEFAULT,
    EROFS_XATTR_INDEX_SECURITY, EROFS_XATTR_INDEX_TRUSTED, EROFS_XATTR_INDEX_USER,
};
use crate::text;

verus! {

/// Why attributes cannot be stored.
#[derive(Debug, Clone, Copy, PartialEq, Eq, Structural)]
pub enum XattrError {
    UnsupportedNamespace,
    TooLarge,
    InlineLimit,
    SharedTable,
}

/// The names and values of attributes.
pub open spec fn attributes(list: Seq<(String, Vec<u8>)>) -> Seq<(Seq<char>, Seq<u8>)> {
    list.map_values(|a: (String, Vec<u8>)| (a.0@, a.1@))
}

/// The namespace of a name: its number, and the length of its prefix.
pub open spec fn namespace(name: Seq<char>) -> Option<(u8, int)> {
    if text::begins_with(name, "user."@) {
        Some((EROFS_XATTR_INDEX_USER, "user."@.len() as int))
    } else if text::begins_with(name, "system.posix_acl_access"@) {
        Some((EROFS_XATTR_INDEX_POSIX_ACL_ACCESS, "system.posix_acl_access"@.len() as int))
    } else if text::begins_with(name, "system.posix_acl_default"@) {
        Some((EROFS_XATTR_INDEX_POSIX_ACL_DEFAULT, "system.posix_acl_default"@.len() as int))
    } else if text::begins_with(name, "trusted."@) {
        Some((EROFS_XATTR_INDEX_TRUSTED, "trusted."@.len() as int))
    } else if text::begins_with(name, "security."@) {
        Some((EROFS_XATTR_INDEX_SECURITY, "security."@.len() as int))
    } else {
        None
    }
}

fn find_namespace(name: &[char]) -> (found: Option<(u8, usize)>)
    ensures
        match found {
            Some((index, prefix)) => namespace(name@) == Some((index, prefix as int)) && prefix
                <= name@.len(),
            None => namespace(name@) is None,
        },
{
    if text::starts(name, "user.") {
        Some((EROFS_XATTR_INDEX_USER, text::chars_of("user.").len()))
    } else if text::starts(name, "system.posix_acl_access") {
        Some((EROFS_XATTR_INDEX_POSIX_ACL_ACCESS, text::chars_of("system.posix_acl_access").len()))
    } else if text::starts(name, "system.posix_acl_default") {
        Some(
            (EROFS_XATTR_INDEX_POSIX_ACL_DEFAULT, text::chars_of("system.posix_acl_default").len()),
        )
    } else if text::starts(name, "trusted.") {
        Some((EROFS_XATTR_INDEX_TRUSTED, text::chars_of("trusted.").len()))
    } else if text::starts(name, "security.") {
        Some((EROFS_XATTR_INDEX_SECURITY, text::chars_of("security.").len()))
    } else {
        None
    }
}

/// The bytes of a name behind its prefix.
pub open spec fn suffix_bytes(name: Seq<char>, prefix: int) -> Seq<u8> {
    vstd::utf8::encode_utf8(name.skip(prefix))
}

/// `s`, with zeros behind it up to a multiple of four.
pub open spec fn quad_padded(s: Seq<u8>) -> Seq<u8> {
    s + bytes::filled(0, (4 - s.len() as int % 4) % 4)
}

/// One attribute as it is stored: the lengths and the namespace, the name
/// behind its prefix, and the value.
pub open spec fn stored(name: Seq<char>, value: Seq<u8>) -> Result<Seq<u8>, XattrError> {
    match namespace(name) {
        None => Err(XattrError::UnsupportedNamespace),
        Some((index, prefix)) => {
            let suffix = suffix_bytes(name, prefix);
            if suffix.len() > 0xff || value.len() > 0xffff {
                Err(XattrError::TooLarge)
            } else {
                Ok(
                    quad_padded(
                        seq![suffix.len() as u8, index] + bytes::bytes16(value.len() as int)
                            + suffix + value,
                    ),
                )
            }
        },
    }
}

pub fn encode_xattr(result: &mut Vec<u8>, name: &str, value: &[u8]) -> (done: Result<(), XattrError>)
    ensures
        match done {
            Ok(()) => stored(name@, value@) is Ok && final(result)@ == old(result)@ + stored(
                name@,
                value@,
            )->Ok_0,
            Err(error) => stored(name@, value@) == Err::<Seq<u8>, XattrError>(error)
                && final(result)@ == old(result)@,
        },
{
    let chars = text::chars_of(name);
    let (index, prefix) = match find_namespace(chars.as_slice()) {
        Some(found) => found,
        None => {
            return Err(XattrError::UnsupportedNamespace);
        },
    };
    let rest = text::string_of(&chars.as_slice()[prefix..chars.len()]);
    assert(rest@ =~= name@.skip(prefix as int));
    let suffix = rest.as_str().as_bytes();
    if suffix.len() > 0xff || value.len() > 0xffff {
        return Err(XattrError::TooLarge);
    }
    let ghost before = result@;
    result.push(suffix.len() as u8);
    result.push(index);
    bytes::push_u16(result, value.len() as u16);
    bytes::push_all(result, suffix);
    bytes::push_all(result, value);
    let length: usize = 4 + suffix.len() + value.len();
    let padding: usize = (4 - length % 4) % 4;
    bytes::push_filled(result, 0, padding);
    proof {
        let body = seq![suffix@.len() as u8, index] + bytes::bytes16(value@.len() as int) + suffix@
            + value@;
        assert(body.len() == length);
        assert(result@ =~= before + quad_padded(body));
    }
    Ok(())
}

// ---------------------------------------------------------------------------
// The attributes of an inode
// ---------------------------------------------------------------------------

/// An attribute that inodes share, and where it stands in the shared table, in
/// units of four bytes.
#[derive(Debug)]
pub struct SharedXattr {
    pub name: String,
    pub value: Vec<u8>,
    pub offset: u32,
}

/// The names, values and places of shared attributes.
pub open spec fn table(list: Seq<SharedXattr>) -> Seq<(Seq<char>, Seq<u8>, u32)> {
    list.map_values(|s: SharedXattr| (s.name@, s.value@, s.offset))
}

/// Where a shared attribute stands.
pub open spec fn shared_offset(
    shared: Seq<(Seq<char>, Seq<u8>, u32)>,
    name: Seq<char>,
    value: Seq<u8>,
    from: int,
) -> Option<u32>
    decreases shared.len() - from,
{
    if from < 0 || from >= shared.len() {
        None
    } else if shared[from].0 == name && shared[from].1 == value {
        Some(shared[from].2)
    } else {
        shared_offset(shared, name, value, from + 1)
    }
}

fn find_shared(shared: &Vec<SharedXattr>, name: &str, value: &[u8]) -> (offset: Option<u32>)
    ensures
        offset == shared_offset(table(shared@), name@, value@, 0),
{
    let mut i: usize = 0;
    while i < shared.len()
        invariant
            i <= shared@.len(),
            shared_offset(table(shared@), name@, value@, 0) == shared_offset(
                table(shared@),
                name@,
                value@,
                i as int,
            ),
        decreases shared@.len() - i,
    {
        assert(table(shared@)[i as int] == (
            shared@[i as int].name@,
            shared@[i as int].value@,
            shared@[i as int].offset,
        ));
        if text::same_text(shared[i].name.as_str(), name) && bytes::same_bytes(
            shared[i].value.as_slice(),
            value,
        ) {
            return Some(shared[i].offset);
        }
        i += 1;
    }
    None
}

/// The references to shared attributes, and the attributes that follow.
#[verifier::ext_equal]
pub struct XattrParts {
    pub count: int,
    pub ids: Seq<u8>,
    pub inline: Seq<u8>,
}

/// What the first `n` attributes of an inode are stored as. At most 255 refer
/// to the shared table.
pub open spec fn parts_of(
    list: Seq<(Seq<char>, Seq<u8>)>,
    shared: Seq<(Seq<char>, Seq<u8>, u32)>,
    n: int,
) -> Result<XattrParts, XattrError>
    decreases n,
{
    if n <= 0 {
        Ok(XattrParts { count: 0, ids: seq![], inline: seq![] })
    } else {
        match parts_of(list, shared, n - 1) {
            Err(error) => Err(error),
            Ok(before) => {
                let (name, value) = list[n - 1];
                match shared_offset(shared, name, value, 0) {
                    Some(offset) if before.count < 255 => Ok(
                        XattrParts {
                            count: before.count + 1,
                            ids: before.ids + bytes::bytes32(offset as int),
                            inline: before.inline,
                        },
                    ),
                    _ => match stored(name, value) {
                        Err(error) => Err(error),
                        Ok(data) => Ok(XattrParts { inline: before.inline + data, ..before }),
                    },
                }
            },
        }
    }
}

/// The attributes of an inode: a header with the number of references, the
/// references, and the attributes that are not shared.
pub open spec fn encoded(
    list: Seq<(Seq<char>, Seq<u8>)>,
    shared: Seq<(Seq<char>, Seq<u8>, u32)>,
) -> Result<Seq<u8>, XattrError> {
    if list.len() == 0 {
        Ok(seq![])
    } else {
        match parts_of(list, shared, list.len() as int) {
            Err(error) => Err(error),
            Ok(parts) => if (parts.ids.len() + parts.inline.len()) / 4 >= 0xffff {
                Err(XattrError::InlineLimit)
            } else {
                Ok(
                    bytes::filled(0, 4) + seq![parts.count as u8] + bytes::filled(0, 7) + parts.ids
                        + parts.inline,
                )
            },
        }
    }
}

proof fn lemma_parts_fail(
    list: Seq<(Seq<char>, Seq<u8>)>,
    shared: Seq<(Seq<char>, Seq<u8>, u32)>,
    n: int,
    m: int,
)
    requires
        0 <= n <= m,
        parts_of(list, shared, n) is Err,
    ensures
        parts_of(list, shared, m) == parts_of(list, shared, n),
    decreases m,
{
    if n < m {
        lemma_parts_fail(list, shared, n, m - 1);
    }
}

pub fn encode_xattrs(list: &Vec<(String, Vec<u8>)>, shared: &Vec<SharedXattr>) -> (result: Result<
    Vec<u8>,
    XattrError,
>)
    ensures
        match result {
            Ok(data) => encoded(attributes(list@), table(shared@)) == Ok::<Seq<u8>, XattrError>(
                data@,
            ),
            Err(error) => encoded(attributes(list@), table(shared@)) == Err::<Seq<u8>, XattrError>(
                error,
            ),
        },
{
    if list.len() == 0 {
        return Ok(Vec::new());
    }
    let ghost all = attributes(list@);
    let ghost known = table(shared@);
    let mut count: u8 = 0;
    let mut ids: Vec<u8> = Vec::new();
    let mut inline: Vec<u8> = Vec::new();
    let mut i: usize = 0;
    while i < list.len()
        invariant
            i <= list@.len(),
            all == attributes(list@),
            known == table(shared@),
            all.len() > 0,
            parts_of(all, known, i as int) == Ok::<XattrParts, XattrError>(
                XattrParts { count: count as int, ids: ids@, inline: inline@ },
            ),
        decreases list@.len() - i,
    {
        let (name, value) = &list[i];
        assert(all[i as int] == (name@, value@));
        match find_shared(shared, name.as_str(), value.as_slice()) {
            Some(offset) if count < 255 => {
                count = count + 1;
                bytes::push_u32(&mut ids, offset);
            },
            _ => {
                if let Err(error) = encode_xattr(&mut inline, name.as_str(), value.as_slice()) {
                    proof {
                        lemma_parts_fail(all, known, i + 1, all.len() as int);
                    }
                    return Err(error);
                }
            },
        }
        i += 1;
    }
    assert(ids.len() <= usize::MAX && inline.len() <= usize::MAX);
    if (ids.len() as u128 + inline.len() as u128) / 4 >= 0xffff {
        return Err(XattrError::InlineLimit);
    }
    let mut result: Vec<u8> = Vec::new();
    bytes::push_filled(&mut result, 0, 4);
    result.push(count);
    bytes::push_filled(&mut result, 0, 7);
    bytes::push_all(&mut result, ids.as_slice());
    bytes::push_all(&mut result, inline.as_slice());
    assert(result@ =~= bytes::filled(0, 4) + seq![count] + bytes::filled(0, 7) + ids@ + inline@);
    Ok(result)
}

/// What an inode stores of its attributes comes in units of four bytes, behind
/// a header of twelve, and their number fits in 16 bits.
pub proof fn law_encoded_attributes_are_quads(
    list: Seq<(Seq<char>, Seq<u8>)>,
    shared: Seq<(Seq<char>, Seq<u8>, u32)>,
)
    requires
        encoded(list, shared) is Ok,
    ensures
        encoded(list, shared)->Ok_0.len() % 4 == 0,
        list.len() == 0 ==> encoded(list, shared)->Ok_0.len() == 0,
        list.len() > 0 ==> 12 <= encoded(list, shared)->Ok_0.len() < 12 + 4 * 0xffff,
{
    if list.len() > 0 {
        lemma_parts_len(list, shared, list.len() as int);
    }
}

proof fn lemma_parts_len(
    list: Seq<(Seq<char>, Seq<u8>)>,
    shared: Seq<(Seq<char>, Seq<u8>, u32)>,
    n: int,
)
    requires
        0 <= n <= list.len(),
        parts_of(list, shared, n) is Ok,
    ensures
        parts_of(list, shared, n)->Ok_0.ids.len() % 4 == 0,
        parts_of(list, shared, n)->Ok_0.inline.len() % 4 == 0,
        0 <= parts_of(list, shared, n)->Ok_0.count <= 255,
        parts_of(list, shared, n)->Ok_0.ids.len() == 4 * parts_of(list, shared, n)->Ok_0.count,
    decreases n,
{
    if n > 0 {
        lemma_parts_len(list, shared, n - 1);
    }
}

// ---------------------------------------------------------------------------
// The shared table
// ---------------------------------------------------------------------------

/// The order of attributes: by name, then by value.
pub open spec fn attribute_precedes(a: (Seq<char>, Seq<u8>), b: (Seq<char>, Seq<u8>)) -> bool {
    text::precedes(a.0, b.0) || (a.0 == b.0 && directory::precedes(a.1, b.1))
}

/// How many lists of attributes hold the attribute `a`, each one once.
pub open spec fn uses(lists: Seq<Seq<(Seq<char>, Seq<u8>)>>, a: (Seq<char>, Seq<u8>)) -> nat
    decreases lists.len(),
{
    if lists.len() == 0 {
        0
    } else {
        uses(lists.drop_last(), a) + times(lists.last(), a)
    }
}

/// How often a list holds the attribute `a`.
pub open spec fn times(list: Seq<(Seq<char>, Seq<u8>)>, a: (Seq<char>, Seq<u8>)) -> nat
    decreases list.len(),
{
    if list.len() == 0 {
        0
    } else {
        times(list.drop_last(), a) + if list.last() == a {
            1nat
        } else {
            0nat
        }
    }
}

/// An attribute, and how often it is used.
#[derive(Debug)]
pub struct Usage {
    pub name: String,
    pub value: Vec<u8>,
    pub count: u128,
}

impl Usage {
    /// The attribute that is used.
    pub open spec fn attribute(&self) -> (Seq<char>, Seq<u8>) {
        (self.name@, self.value@)
    }
}

/// True when attributes stand in their order, none twice.
pub open spec fn in_order(list: Seq<Usage>) -> bool {
    forall|i: int, j: int|
        0 <= i < j < list.len() ==> attribute_precedes(
            (#[trigger] list[i]).attribute(),
            (#[trigger] list[j]).attribute(),
        )
}

/// The count of an attribute, or zero where it does not occur.
pub open spec fn recorded(list: Seq<Usage>, a: (Seq<char>, Seq<u8>)) -> nat
    decreases list.len(),
{
    if list.len() == 0 {
        0
    } else if list.last().attribute() == a {
        list.last().count as nat
    } else {
        recorded(list.drop_last(), a)
    }
}

proof fn lemma_attribute_order(a: (Seq<char>, Seq<u8>), b: (Seq<char>, Seq<u8>))
    ensures
        attribute_precedes(a, b) || a == b || attribute_precedes(b, a),
        !(attribute_precedes(a, b) && attribute_precedes(b, a)),
        !attribute_precedes(a, a),
{
    text::lemma_precedes_total(a.0, b.0);
    directory::lemma_precedes_total(a.1, b.1);
    text::lemma_precedes_total(a.0, a.0);
    directory::lemma_precedes_total(a.1, a.1);
}

proof fn lemma_attribute_chain(
    a: (Seq<char>, Seq<u8>),
    b: (Seq<char>, Seq<u8>),
    c: (Seq<char>, Seq<u8>),
)
    requires
        attribute_precedes(a, b),
        attribute_precedes(b, c),
    ensures
        attribute_precedes(a, c),
{
    if text::precedes(a.0, b.0) && text::precedes(b.0, c.0) {
        text::lemma_precedes_chain(a.0, b.0, c.0);
    } else if a.0 == b.0 && b.0 == c.0 {
        directory::lemma_precedes_chain(a.1, b.1, c.1);
    }
}

/// The record of an attribute is the count of the one entry that names it.
proof fn lemma_recorded(list: Seq<Usage>, a: (Seq<char>, Seq<u8>))
    requires
        in_order(list),
    ensures
        forall|i: int|
            0 <= i < list.len() && (#[trigger] list[i]).attribute() == a ==> recorded(list, a)
                == list[i].count,
        (forall|i: int| 0 <= i < list.len() ==> (#[trigger] list[i]).attribute() != a)
            ==> recorded(list, a) == 0,
    decreases list.len(),
{
    if list.len() > 0 {
        let rest = list.drop_last();
        assert forall|i: int, j: int| 0 <= i < j < rest.len() implies attribute_precedes(
            (#[trigger] rest[i]).attribute(),
            (#[trigger] rest[j]).attribute(),
        ) by {
            assert(attribute_precedes(list[i].attribute(), list[j].attribute()));
        }
        lemma_recorded(rest, a);
        assert forall|i: int|
            0 <= i < list.len() && (#[trigger] list[i]).attribute() == a implies recorded(list, a)
            == list[i].count by {
            if i < rest.len() {
                assert(rest[i] == list[i]);
                lemma_attribute_order(list[i].attribute(), list.last().attribute());
                assert(attribute_precedes(list[i].attribute(), list[list.len() - 1].attribute()));
            }
        }
        if forall|i: int| 0 <= i < list.len() ==> (#[trigger] list[i]).attribute() != a {
            assert forall|i: int| 0 <= i < rest.len() implies (#[trigger] rest[i]).attribute()
                != a by {
                assert(list[i] == rest[i]);
            }
            assert(list[list.len() - 1].attribute() != a);
        }
    }
}

fn less(name: &str, value: &[u8], other: &Usage) -> (is: bool)
    ensures
        is == attribute_precedes((name@, value@), other.attribute()),
{
    let a = text::chars_of(name);
    let b = text::chars_of(other.name.as_str());
    text::comes_before(a.as_slice(), b.as_slice()) || (text::same_chars(a.as_slice(), b.as_slice())
        && directory::comes_before(value, other.value.as_slice()))
}

fn same(name: &str, value: &[u8], other: &Usage) -> (is: bool)
    ensures
        is == ((name@, value@) == other.attribute()),
{
    text::same_text(name, other.name.as_str()) && bytes::same_bytes(value, other.value.as_slice())
}

/// Counts one use of an attribute, where none is counted more than `most` times.
pub(crate) fn count_use(list: &mut Vec<Usage>, name: &str, value: &[u8], most: Ghost<int>)
    requires
        in_order(old(list)@),
        most@ < u128::MAX,
        forall|i: int| 0 <= i < old(list)@.len() ==> (#[trigger] old(list)@[i]).count <= most@,
    ensures
        in_order(final(list)@),
        forall|a: (Seq<char>, Seq<u8>)|
            #![trigger recorded(final(list)@, a)]
            recorded(final(list)@, a) == recorded(old(list)@, a) + if a == (name@, value@) {
                1nat
            } else {
                0nat
            },
        forall|i: int|
            0 <= i < final(list)@.len() ==> (#[trigger] final(list)@[i]).count <= most@ + 1
                || final(list)@[i].count == 1,
{
    let ghost here = (name@, value@);
    let ghost before = list@;
    let mut at: usize = 0;
    while at < list.len() && !less(name, value, &list[at]) && !same(name, value, &list[at])
        invariant
            at <= list@.len(),
            list@ == before,
            here == (name@, value@),
            forall|k: int|
                0 <= k < at ==> !attribute_precedes(here, (#[trigger] before[k]).attribute())
                    && before[k].attribute() != here,
        decreases list@.len() - at,
    {
        at += 1;
    }
    if at < list.len() && same(name, value, &list[at]) {
        let old_count: u128 = list[at].count;
        let entry = Usage {
            name: list[at].name.clone(),
            value: bytes::copy_range(list[at].value.as_slice(), 0, list[at].value.len()),
            count: old_count + 1,
        };
        assert(entry.value@ =~= before[at as int].value@);
        assert(entry.attribute() == before[at as int].attribute());
        list[at] = entry;
        proof {
            assert forall|i: int, j: int| 0 <= i < j < list@.len() implies attribute_precedes(
                (#[trigger] list@[i]).attribute(),
                (#[trigger] list@[j]).attribute(),
            ) by {
                assert(attribute_precedes(before[i].attribute(), before[j].attribute()));
            }
            lemma_count_at(before, list@, at as int, here);
        }
    } else {
        let entry = Usage {
            name: text::string_of(text::chars_of(name).as_slice()),
            value: bytes::copy_range(value, 0, value.len()),
            count: 1,
        };
        assert(entry.value@ =~= value@);
        assert(entry.attribute() == here);
        list.insert(at, entry);
        proof {
            lemma_insert_in_order(before, list@, at as int, here);
            lemma_count_new(before, list@, at as int, here);
        }
    }
    proof {
        assert forall|i: int| 0 <= i < list@.len() implies (#[trigger] list@[i]).count <= most@ + 1
            || list@[i].count == 1 by {
            if i != at {
                let j = if i < at || list@.len() == before.len() {
                    i
                } else {
                    i - 1
                };
                assert(list@[i] == before[j]);
            }
        }
    }
}

proof fn lemma_insert_in_order(
    before: Seq<Usage>,
    after: Seq<Usage>,
    at: int,
    here: (Seq<char>, Seq<u8>),
)
    requires
        in_order(before),
        0 <= at <= before.len(),
        after.len() == before.len() + 1,
        forall|i: int| 0 <= i < at ==> after[i] == before[i],
        forall|i: int| at < i < after.len() ==> after[i] == before[i - 1],
        after[at].attribute() == here,
        forall|k: int|
            0 <= k < at ==> !attribute_precedes(here, (#[trigger] before[k]).attribute())
                && before[k].attribute() != here,
        at < before.len() ==> attribute_precedes(here, before[at].attribute()),
    ensures
        in_order(after),
{
    assert forall|i: int, j: int| 0 <= i < j < after.len() implies attribute_precedes(
        (#[trigger] after[i]).attribute(),
        (#[trigger] after[j]).attribute(),
    ) by {
        if j == at {
            lemma_attribute_order(here, before[i].attribute());
        } else if i == at {
            if j - 1 > at {
                assert(attribute_precedes(before[at].attribute(), before[j - 1].attribute()));
                lemma_attribute_chain(here, before[at].attribute(), before[j - 1].attribute());
            }
        } else {
            let bi = if i < at {
                i
            } else {
                i - 1
            };
            let bj = if j < at {
                j
            } else {
                j - 1
            };
            assert(attribute_precedes(before[bi].attribute(), before[bj].attribute()));
        }
    }
}

proof fn lemma_count_new(
    before: Seq<Usage>,
    after: Seq<Usage>,
    at: int,
    here: (Seq<char>, Seq<u8>),
)
    requires
        in_order(before),
        in_order(after),
        0 <= at <= before.len(),
        after.len() == before.len() + 1,
        forall|i: int| 0 <= i < at ==> after[i] == before[i],
        forall|i: int| at < i < after.len() ==> after[i] == before[i - 1],
        after[at].attribute() == here,
        after[at].count == 1,
    ensures
        forall|a: (Seq<char>, Seq<u8>)|
            #![trigger recorded(after, a)]
            recorded(after, a) == recorded(before, a) + if a == here {
                1nat
            } else {
                0nat
            },
{
    assert forall|a: (Seq<char>, Seq<u8>)|
        #![trigger recorded(after, a)]
        recorded(after, a) == recorded(before, a) + if a == here {
            1nat
        } else {
            0nat
        } by {
        lemma_recorded(before, a);
        lemma_recorded(after, a);
        if a == here {
            assert(recorded(after, a) == after[at].count);
            assert forall|i: int| 0 <= i < before.len() implies (#[trigger] before[i]).attribute()
                != a by {
                lemma_attribute_order(a, a);
                if i < at {
                    assert(attribute_precedes(after[i].attribute(), after[at].attribute()));
                } else {
                    assert(after[i + 1] == before[i]);
                    assert(attribute_precedes(after[at].attribute(), after[i + 1].attribute()));
                }
            }
        } else if exists|i: int| 0 <= i < before.len() && (#[trigger] before[i]).attribute() == a {
            let i = choose|i: int| 0 <= i < before.len() && (#[trigger] before[i]).attribute() == a;
            let j = if i < at {
                i
            } else {
                i + 1
            };
            assert(after[j] == before[i]);
        } else {
            assert forall|j: int| 0 <= j < after.len() implies (#[trigger] after[j]).attribute()
                != a by {
                if j < at {
                    assert(before[j] == after[j]);
                } else if j > at {
                    assert(before[j - 1] == after[j]);
                }
            }
        }
    }
}

proof fn lemma_count_at(
    before: Seq<Usage>,
    after: Seq<Usage>,
    at: int,
    here: (Seq<char>, Seq<u8>),
)
    requires
        in_order(before),
        in_order(after),
        0 <= at < before.len(),
        after.len() == before.len(),
        forall|i: int| 0 <= i < after.len() && i != at ==> after[i] == before[i],
        before[at].attribute() == here,
        after[at].attribute() == here,
        after[at].count == before[at].count + 1,
    ensures
        forall|a: (Seq<char>, Seq<u8>)|
            #![trigger recorded(after, a)]
            recorded(after, a) == recorded(before, a) + if a == here {
                1nat
            } else {
                0nat
            },
{
    assert forall|a: (Seq<char>, Seq<u8>)|
        #![trigger recorded(after, a)]
        recorded(after, a) == recorded(before, a) + if a == here {
            1nat
        } else {
            0nat
        } by {
        lemma_recorded(before, a);
        lemma_recorded(after, a);
        if a == here {
            assert(recorded(after, a) == after[at].count);
            assert(recorded(before, a) == before[at].count);
        } else if exists|i: int| 0 <= i < before.len() && (#[trigger] before[i]).attribute() == a {
            let i = choose|i: int| 0 <= i < before.len() && (#[trigger] before[i]).attribute() == a;
            assert(after[i] == before[i]);
        } else {
            assert forall|j: int| 0 <= j < after.len() implies (#[trigger] after[j]).attribute()
                != a by {
                if j != at {
                    assert(before[j] == after[j]);
                }
            }
        }
    }
}

/// The attributes that are used more often than `tolerance`, from `from` on.
pub open spec fn often_used(list: Seq<Usage>, tolerance: int, n: int) -> Seq<(Seq<char>, Seq<u8>)>
    decreases n,
{
    if n <= 0 {
        seq![]
    } else {
        let before = often_used(list, tolerance, n - 1);
        if list[n - 1].count > tolerance {
            before.push(list[n - 1].attribute())
        } else {
            before
        }
    }
}

/// The bytes of the first `n` attributes of the shared table.
pub open spec fn table_bytes(list: Seq<(Seq<char>, Seq<u8>)>, n: int) -> Result<
    Seq<u8>,
    XattrError,
>
    decreases n,
{
    if n <= 0 {
        Ok(seq![])
    } else {
        match table_bytes(list, n - 1) {
            Err(error) => Err(error),
            Ok(before) => if before.len() / 4 > 0xffff_ffff {
                Err(XattrError::SharedTable)
            } else {
                match stored(list[n - 1].0, list[n - 1].1) {
                    Err(error) => Err(error),
                    Ok(data) => Ok(before + data),
                }
            },
        }
    }
}

/// True when `shared` holds the attributes of `list` in their order, each with
/// its place in the table.
pub open spec fn is_table(
    list: Seq<(Seq<char>, Seq<u8>)>,
    shared: Seq<(Seq<char>, Seq<u8>, u32)>,
) -> bool {
    &&& shared.len() == list.len()
    &&& forall|i: int|
        #![trigger shared[i]]
        0 <= i < list.len() ==> shared[i].0 == list[i].0 && shared[i].1 == list[i].1 && table_bytes(
            list,
            i,
        ) is Ok && shared[i].2 == table_bytes(list, i)->Ok_0.len() / 4
}

/// True when `shared` holds the first attributes of `list` as in a table.
spec fn starts_table(
    list: Seq<(Seq<char>, Seq<u8>)>,
    shared: Seq<(Seq<char>, Seq<u8>, u32)>,
) -> bool {
    &&& shared.len() <= list.len()
    &&& forall|i: int|
        #![trigger shared[i]]
        0 <= i < shared.len() ==> shared[i].0 == list[i].0 && shared[i].1 == list[i].1
            && table_bytes(list, i) is Ok && shared[i].2 == table_bytes(list, i)->Ok_0.len() / 4
}

/// True when `list` holds, in their order and each once, exactly the attributes
/// that are used more often than `tolerance`.
pub open spec fn is_shared_list(
    lists: Seq<Seq<(Seq<char>, Seq<u8>)>>,
    tolerance: int,
    list: Seq<(Seq<char>, Seq<u8>)>,
) -> bool {
    &&& forall|i: int, j: int|
        0 <= i < j < list.len() ==> attribute_precedes(#[trigger] list[i], #[trigger] list[j])
    &&& forall|a: (Seq<char>, Seq<u8>)|
        #![trigger list.contains(a)]
        list.contains(a) <==> uses(lists, a) > tolerance
}

proof fn lemma_table_fails(list: Seq<(Seq<char>, Seq<u8>)>, n: int, m: int)
    requires
        0 <= n <= m,
        table_bytes(list, n) is Err,
    ensures
        table_bytes(list, m) == table_bytes(list, n),
    decreases m,
{
    if n < m {
        lemma_table_fails(list, n, m - 1);
    }
}

proof fn lemma_often_used(list: Seq<Usage>, tolerance: int, n: int)
    requires
        in_order(list),
        0 <= n <= list.len(),
    ensures
        forall|i: int, j: int|
            0 <= i < j < often_used(list, tolerance, n).len() ==> attribute_precedes(
                #[trigger] often_used(list, tolerance, n)[i],
                #[trigger] often_used(list, tolerance, n)[j],
            ),
        forall|a: (Seq<char>, Seq<u8>)|
            #![trigger often_used(list, tolerance, n).contains(a)]
            often_used(list, tolerance, n).contains(a) <==> exists|k: int|
                0 <= k < n && (#[trigger] list[k]).attribute() == a && list[k].count > tolerance,
    decreases n,
{
    let all = often_used(list, tolerance, n);
    if n > 0 {
        lemma_often_used(list, tolerance, n - 1);
        let before = often_used(list, tolerance, n - 1);
        let last = list[n - 1];
        assert forall|i: int, j: int| 0 <= i < j < all.len() implies attribute_precedes(
            #[trigger] all[i],
            #[trigger] all[j],
        ) by {
            if j < before.len() {
                assert(all[i] == before[i] && all[j] == before[j]);
            } else {
                assert(all[i] == before[i]);
                assert(before.contains(before[i]));
                let k = choose|k: int|
                    0 <= k < n - 1 && (#[trigger] list[k]).attribute() == before[i]
                        && list[k].count > tolerance;
                assert(attribute_precedes(list[k].attribute(), list[n - 1].attribute()));
            }
        }
        assert forall|a: (Seq<char>, Seq<u8>)| #![trigger all.contains(a)] all.contains(a)
            <==> exists|k: int|
            0 <= k < n && (#[trigger] list[k]).attribute() == a && list[k].count > tolerance by {
            if all.contains(a) {
                let i = choose|i: int| 0 <= i < all.len() && all[i] == a;
                if i < before.len() {
                    assert(before[i] == a);
                    assert(before.contains(a));
                    let k = choose|k: int|
                        0 <= k < n - 1 && (#[trigger] list[k]).attribute() == a && list[k].count
                            > tolerance;
                    assert(list[k].attribute() == a);
                } else {
                    assert(list[n - 1].attribute() == a);
                }
            }
            if exists|k: int|
                0 <= k < n && (#[trigger] list[k]).attribute() == a && list[k].count > tolerance {
                let k = choose|k: int|
                    0 <= k < n && (#[trigger] list[k]).attribute() == a && list[k].count
                        > tolerance;
                if k < n - 1 {
                    assert(before.contains(a));
                    let i = choose|i: int| 0 <= i < before.len() && before[i] == a;
                    assert(all[i] == a);
                } else {
                    assert(all[all.len() - 1] == a);
                }
            }
        }
    }
}

/// Lists the attributes that are used more often than the tolerance, with their
/// places in the shared table, and the table itself.
pub(crate) fn build_table(
    list: Vec<Usage>,
    tolerance: u32,
    lists: Ghost<Seq<Seq<(Seq<char>, Seq<u8>)>>>,
) -> (built: Result<(Vec<SharedXattr>, Vec<u8>), XattrError>)
    requires
        in_order(list@),
        forall|a: (Seq<char>, Seq<u8>)| #[trigger] recorded(list@, a) == uses(lists@, a),
    ensures
        match built {
            Ok((shared, data)) => shares(lists@, tolerance as int, table(shared@), data@),
            Err(error) => exists|often: Seq<(Seq<char>, Seq<u8>)>|
                #[trigger] is_shared_list(lists@, tolerance as int, often) && table_bytes(
                    often,
                    often.len() as int,
                ) == Err::<Seq<u8>, XattrError>(error),
        },
{
    let ghost often = often_used(list@, tolerance as int, list@.len() as int);
    proof {
        lemma_often_used(list@, tolerance as int, list@.len() as int);
        assert forall|a: (Seq<char>, Seq<u8>)| #![trigger often.contains(a)] often.contains(a)
            <==> uses(lists@, a) > tolerance by {
            lemma_recorded(list@, a);
            assert(recorded(list@, a) == uses(lists@, a));
            if uses(lists@, a) > tolerance {
                if forall|i: int| 0 <= i < list@.len() ==> (#[trigger] list@[i]).attribute() != a {
                    assert(false);
                }
                let k = choose|k: int| 0 <= k < list@.len() && (#[trigger] list@[k]).attribute()
                    == a;
                assert(list@[k].count > tolerance);
            }
            if often.contains(a) {
                let k = choose|k: int|
                    0 <= k < list@.len() && (#[trigger] list@[k]).attribute() == a && list@[k].count
                        > tolerance;
                assert(recorded(list@, a) == list@[k].count);
            }
        }
        assert(is_shared_list(lists@, tolerance as int, often));
    }
    let mut shared: Vec<SharedXattr> = Vec::new();
    let mut data: Vec<u8> = Vec::new();
    let mut i: usize = 0;
    while i < list.len()
        invariant
            i <= list@.len(),
            often == often_used(list@, tolerance as int, list@.len() as int),
            is_shared_list(lists@, tolerance as int, often),
            shared@.len() == often_used(list@, tolerance as int, i as int).len(),
            shared@.len() <= often.len(),
            often.take(shared@.len() as int) == often_used(list@, tolerance as int, i as int),
            table_bytes(often, shared@.len() as int) == Ok::<Seq<u8>, XattrError>(data@),
            starts_table(often, table(shared@)),
        decreases list@.len() - i,
    {
        proof {
            lemma_often_prefix(list@, tolerance as int, i + 1, list@.len() as int);
        }
        if list[i].count > tolerance as u128 {
            let ghost n = shared@.len() as int;
            let ghost next = often_used(list@, tolerance as int, i + 1);
            assert(next[n] == list@[i as int].attribute());
            assert(often[n] == next[n]);
            assert(often.take(n + 1) =~= next);
            let units: usize = data.len() / 4;
            if units as u64 > 0xffff_ffff {
                proof {
                    lemma_table_fails(often, n + 1, often.len() as int);
                }
                return Err(XattrError::SharedTable);
            }
            let offset: u32 = units as u32;
            if let Err(error) = encode_xattr(
                &mut data,
                list[i].name.as_str(),
                list[i].value.as_slice(),
            ) {
                proof {
                    lemma_table_fails(often, n + 1, often.len() as int);
                }
                return Err(error);
            }
            let ghost before = table(shared@);
            let entry = SharedXattr {
                name: list[i].name.clone(),
                value: bytes::copy_range(list[i].value.as_slice(), 0, list[i].value.len()),
                offset,
            };
            assert(entry.value@ =~= list@[i as int].value@);
            let ghost entry_name = entry.name@;
            let ghost entry_value = entry.value@;
            shared.push(entry);
            proof {
                let after = table(shared@);
                assert(after =~= before.push((entry_name, entry_value, offset)));
                assert forall|k: int|
                    #![trigger after[k]]
                    0 <= k < after.len() implies after[k].0 == often[k].0 && after[k].1
                    == often[k].1 && table_bytes(often, k) is Ok && after[k].2 == table_bytes(
                    often,
                    k,
                )->Ok_0.len() / 4 by {
                    if k < n {
                        assert(after[k] == before[k]);
                    }
                }
            }
        } else {
            assert(often_used(list@, tolerance as int, i + 1) == often_used(
                list@,
                tolerance as int,
                i as int,
            ));
        }
        i += 1;
    }
    assert(often.take(shared@.len() as int) =~= often);
    assert(is_table(often, table(shared@)));
    assert(shares(lists@, tolerance as int, table(shared@), data@));
    Ok((shared, data))
}

proof fn lemma_often_prefix(list: Seq<Usage>, tolerance: int, n: int, m: int)
    requires
        0 <= n <= m <= list.len(),
    ensures
        often_used(list, tolerance, n).len() <= often_used(list, tolerance, m).len(),
        often_used(list, tolerance, m).take(often_used(list, tolerance, n).len() as int)
            == often_used(list, tolerance, n),
    decreases m - n,
{
    let a = often_used(list, tolerance, n);
    if n < m {
        lemma_often_prefix(list, tolerance, n, m - 1);
        let b = often_used(list, tolerance, m - 1);
        let c = often_used(list, tolerance, m);
        assert(c.take(a.len() as int) =~= b.take(a.len() as int));
    } else {
        assert(a.take(a.len() as int) =~= a);
    }
}

/// True when `shared` and `data` are the shared table of the attributes that
/// are used more often than `tolerance`.
pub open spec fn shares(
    lists: Seq<Seq<(Seq<char>, Seq<u8>)>>,
    tolerance: int,
    shared: Seq<(Seq<char>, Seq<u8>, u32)>,
    data: Seq<u8>,
) -> bool {
    exists|often: Seq<(Seq<char>, Seq<u8>)>|
        {
            &&& #[trigger] is_shared_list(lists, tolerance, often)
            &&& is_table(often, shared)
            &&& table_bytes(often, often.len() as int) == Ok::<Seq<u8>, XattrError>(data)
        }
}

/// What an inode stores of its attributes starts with twelve bytes, of which the fifth
/// counts the shared ones; their places follow, of four bytes each, and behind them
/// the attributes that are not shared.
pub proof fn law_shared_attributes_are_counted(
    list: Seq<(Seq<char>, Seq<u8>)>,
    shared: Seq<(Seq<char>, Seq<u8>, u32)>,
)
    requires
        encoded(list, shared) is Ok,
    ensures
        list.len() == 0 ==> encoded(list, shared)->Ok_0.len() == 0,
        list.len() > 0 ==> {
            let s = encoded(list, shared)->Ok_0;
            let parts = parts_of(list, shared, list.len() as int)->Ok_0;
            &&& s.len() == 12 + parts.ids.len() + parts.inline.len()
            &&& s[4] == parts.count as u8
            &&& forall|i: int| 0 <= i < 12 && i != 4 ==> #[trigger] s[i] == 0
            &&& s.subrange(12, 12int + parts.ids.len()) == parts.ids
            &&& s.skip(12int + parts.ids.len()) == parts.inline
        },
{
    if list.len() > 0 {
        let s = encoded(list, shared)->Ok_0;
        let parts = parts_of(list, shared, list.len() as int)->Ok_0;
        assert(s.subrange(12, 12int + parts.ids.len()) =~= parts.ids);
        assert(s.skip(12int + parts.ids.len()) =~= parts.inline);
    }
}

/// An attribute that is in the shared table is referred to by its place there, as
/// long as fewer than 255 are, and any other one is stored with the inode.
pub proof fn law_shared_attributes_are_referred_to(
    list: Seq<(Seq<char>, Seq<u8>)>,
    shared: Seq<(Seq<char>, Seq<u8>, u32)>,
    n: int,
)
    requires
        0 < n <= list.len(),
        parts_of(list, shared, n) is Ok,
    ensures
        ({
            let before = parts_of(list, shared, n - 1)->Ok_0;
            let after = parts_of(list, shared, n)->Ok_0;
            let (name, value) = list[n - 1];
            let place = shared_offset(shared, name, value, 0);
            &&& parts_of(list, shared, n - 1) is Ok
            &&& place is Some && before.count < 255 ==> after.count == before.count + 1 && after.ids
                == before.ids + bytes::bytes32(place->0 as int) && after.inline == before.inline
            &&& place is None || before.count >= 255 ==> after.count == before.count && after.ids
                == before.ids && stored(name, value) == Ok::<Seq<u8>, XattrError>(
                after.inline.skip(before.inline.len() as int),
            ) && after.inline.take(before.inline.len() as int) == before.inline
        }),
{
    let before = parts_of(list, shared, n - 1)->Ok_0;
    let after = parts_of(list, shared, n)->Ok_0;
    let (name, value) = list[n - 1];
    if shared_offset(shared, name, value, 0) is None || before.count >= 255 {
        let data = stored(name, value)->Ok_0;
        assert(after.inline.skip(before.inline.len() as int) =~= data);
        assert(after.inline.take(before.inline.len() as int) =~= before.inline);
    }
}

/// An attribute is shared where more files use it than are tolerated.
pub proof fn law_often_used_attributes_are_shared(list: Seq<Usage>, tolerance: int, n: int)
    requires
        0 < n <= list.len(),
    ensures
        list[n - 1].count > tolerance ==> often_used(list, tolerance, n) == often_used(
            list,
            tolerance,
            n - 1,
        ).push(list[n - 1].attribute()),
        list[n - 1].count <= tolerance ==> often_used(list, tolerance, n) == often_used(
            list,
            tolerance,
            n - 1,
        ),
        often_used(list, tolerance, 0).len() == 0,
{
}

/// The place of a shared attribute counts units of four bytes from the start of the
/// table.
pub proof fn law_places_count_quads(
    list: Seq<(Seq<char>, Seq<u8>)>,
    shared: Seq<(Seq<char>, Seq<u8>, u32)>,
    i: int,
)
    requires
        is_table(list, shared),
        0 <= i < list.len(),
    ensures
        shared[i].0 == list[i].0 && shared[i].1 == list[i].1,
        shared[i].2 == table_bytes(list, i)->Ok_0.len() / 4,
{
}

} // verus!
