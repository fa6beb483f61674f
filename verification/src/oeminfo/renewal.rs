//! What an image holds after a new boot logo was written to it: the blocks that
//! it held, and the new one in its slot, which is the active copy.

use vstd::prelude::*;

use crate::bytes;
use crate::oeminfo;
use crate::oeminfo::bank;
use crate::oeminfo::bank::OemInfoRegion;
use crate::oeminfo::header;
use crate::oeminfo::header::{BlockHeader, OemInfoLayout, OEMINFO_MAGIC};
use crate::oeminfo::logo;
use crate::oeminfo::logo::{LogoError, PlanModel, OEMINFO_BOOT_LOGO_ID};
use crate::oeminfo::{OemInfoImage, ParsedBlock};

verus! {

// ---------------------------------------------------------------------------
// Where the magic stands
// ---------------------------------------------------------------------------

/// True when the magic stands at a place.
pub open spec fn has_magic(raw: Seq<u8>, at: int) -> bool {
    bytes::stands_at(raw, at, OEMINFO_MAGIC@)
}

/// The first place of the magic is one, and there is none before it.
proof fn lemma_first(s: Seq<u8>, from: int)
    requires
        0 <= from,
    ensures
        match bytes::first_match(s, OEMINFO_MAGIC@, from) {
            Some(at) => from <= at && has_magic(s, at) && forall|p: int|
                from <= p < at ==> !has_magic(s, p),
            None => forall|p: int| from <= p ==> !has_magic(s, p),
        },
    decreases s.len() - from,
{
    assert(OEMINFO_MAGIC@.len() == 8);
    if from + 8 <= s.len() && !has_magic(s, from) {
        lemma_first(s, from + 1);
    }
}

/// What stands at a place stands there in every sequence with the same bytes.
proof fn lemma_magic_same(a: Seq<u8>, b: Seq<u8>, at: int)
    requires
        0 <= at,
        at + 8 <= a.len(),
        at + 8 <= b.len(),
        forall|k: int| at <= k < at + 8 ==> a[k] == b[k],
    ensures
        has_magic(a, at) == has_magic(b, at),
{
    assert(a.subrange(at, at + 8) =~= b.subrange(at, at + 8));
    assert(OEMINFO_MAGIC@.len() == 8);
}

/// The search for the magic, up to `b` and from there on. Gives the place from
/// which on it goes on past `b`.
#[verifier::rlimit(50)]
#[verifier::spinoff_prover]
proof fn lemma_search_parts(s: Seq<u8>, from: int, b: int) -> (cursor: int)
    requires
        0 <= from <= b <= s.len(),
    ensures
        from <= cursor <= b,
        header::magic_offsets(s, from) == header::magic_offsets(s.take(b), from)
            + header::magic_offsets(s, cursor),
        forall|p: int| cursor <= p <= b - 8 ==> !has_magic(s, p),
    decreases s.len() - from,
{
    let head = s.take(b);
    assert(OEMINFO_MAGIC@.len() == 8);
    lemma_first(s, from);
    lemma_first(head, from);
    let found = bytes::first_match(s, OEMINFO_MAGIC@, from);
    let found_head = bytes::first_match(head, OEMINFO_MAGIC@, from);
    if found is Some && found->0 <= b - 8 {
        let at = found->0;
        lemma_magic_same(s, head, at);
        assert(has_magic(head, at));
        assert(found_head == Some(at)) by {
            assert(found_head is Some);
            let other = found_head->0;
            assert(other + 8 <= b);
            if other < at {
                lemma_magic_same(s, head, other);
            }
        }
        let cursor = lemma_search_parts(s, at + 8, b);
        assert(header::magic_offsets(s, from) == seq![at] + header::magic_offsets(s, at + 8));
        assert(header::magic_offsets(head, from) == seq![at] + header::magic_offsets(
            head,
            at + 8,
        ));
        assert(header::magic_offsets(s, from) =~= header::magic_offsets(head, from)
            + header::magic_offsets(s, cursor));
        cursor
    } else {
        assert(found_head is None) by {
            if found_head is Some {
                let other = found_head->0;
                assert(other + 8 <= b);
                lemma_magic_same(s, head, other);
                assert(has_magic(s, other));
            }
        }
        assert(header::magic_offsets(head, from) =~= seq![]);
        assert(header::magic_offsets(s, from) =~= header::magic_offsets(head, from)
            + header::magic_offsets(s, from));
        assert forall|p: int| from <= p <= b - 8 implies !has_magic(s, p) by {
            if has_magic(s, p) {
                assert(found is Some);
                assert(found->0 <= p);
            }
        }
        from
    }
}

/// The search does not depend on where it starts, as long as no magic stands
/// between.
proof fn lemma_search_skips(s: Seq<u8>, from: int, to: int)
    requires
        0 <= from <= to,
        forall|p: int| from <= p < to ==> !has_magic(s, p),
    ensures
        header::magic_offsets(s, from) == header::magic_offsets(s, to),
{
    assert(OEMINFO_MAGIC@.len() == 8);
    lemma_first(s, from);
    lemma_first(s, to);
    let a = bytes::first_match(s, OEMINFO_MAGIC@, from);
    let b = bytes::first_match(s, OEMINFO_MAGIC@, to);
    if a is Some {
        assert(a->0 >= to);
        assert(b is Some);
        assert(a == b);
    } else {
        assert(b is None) by {
            if b is Some {
                assert(has_magic(s, b->0));
            }
        }
    }
}

/// The search sees only what lies behind its start.
proof fn lemma_search_behind(a: Seq<u8>, b: Seq<u8>, from: int)
    requires
        0 <= from,
        a.len() == b.len(),
        forall|k: int| from <= k < a.len() ==> a[k] == b[k],
    ensures
        header::magic_offsets(a, from) == header::magic_offsets(b, from),
    decreases a.len() - from,
{
    assert(OEMINFO_MAGIC@.len() == 8);
    lemma_first(a, from);
    lemma_first(b, from);
    assert forall|p: int| from <= p implies has_magic(a, p) == has_magic(b, p) by {
        if p + 8 <= a.len() {
            lemma_magic_same(a, b, p);
        }
    }
    let x = bytes::first_match(a, OEMINFO_MAGIC@, from);
    let y = bytes::first_match(b, OEMINFO_MAGIC@, from);
    if x is Some {
        assert(has_magic(b, x->0));
        assert(y is Some);
        assert(has_magic(a, y->0));
        assert(x == y);
        lemma_search_behind(a, b, x->0 + 8);
    } else if y is Some {
        assert(has_magic(a, y->0));
    }
}

/// The magic stands at every place that the search finds, not before its start.
proof fn lemma_search_finds(s: Seq<u8>, from: int, k: int)
    requires
        0 <= from,
        0 <= k < header::magic_offsets(s, from).len(),
    ensures
        from <= header::magic_offsets(s, from)[k],
        has_magic(s, header::magic_offsets(s, from)[k]),
    decreases s.len() - from,
{
    lemma_first(s, from);
    assert(OEMINFO_MAGIC@.len() == 8);
    let at = bytes::first_match(s, OEMINFO_MAGIC@, from)->0;
    let rest = header::magic_offsets(s, at + 8);
    if k > 0 {
        assert(header::magic_offsets(s, from)[k] == rest[k - 1]);
        lemma_search_finds(s, at + 8, k - 1);
    }
}

// ---------------------------------------------------------------------------
// Headers
// ---------------------------------------------------------------------------

/// A header is read from its own bytes.
#[verifier::rlimit(50)]
#[verifier::spinoff_prover]
proof fn lemma_header_local(a: Seq<u8>, b: Seq<u8>, at: int)
    requires
        0 <= at,
        a.len() == b.len(),
        forall|k: int| at <= k < at + 0x200 && k < a.len() ==> a[k] == b[k],
    ensures
        header::header_at(a, at) == header::header_at(b, at),
{
    assert(OEMINFO_MAGIC@.len() == 8);
    if at + 0x20 <= a.len() {
        lemma_magic_same(a, b, at);
        assert(bytes::le32(a, at + 8) == bytes::le32(b, at + 8));
        assert(bytes::le32(a, at + 12) == bytes::le32(b, at + 12));
        assert(bytes::le32(a, at + 16) == bytes::le32(b, at + 16));
        assert(bytes::le32(a, at + 20) == bytes::le32(b, at + 20));
        assert(bytes::le32(a, at + 24) == bytes::le32(b, at + 24));
        assert(a.subrange(at + 28, at + 32) =~= b.subrange(at + 28, at + 32));
        if at + 0x40 <= a.len() {
            assert(a.subrange(at + 0x20, at + 0x40) =~= b.subrange(at + 0x20, at + 0x40));
        }
        if at + 0x200 <= a.len() {
            assert(a.subrange(at + 0x20, at + 0x200) =~= b.subrange(at + 0x20, at + 0x200));
        }
        assert(header::padding_at(a, at) == header::padding_at(b, at));
    }
}

/// The headers at some places and then at others.
proof fn lemma_headers_join(raw: Seq<u8>, a: Seq<int>, b: Seq<int>)
    ensures
        oeminfo::headers_at(raw, a + b) == oeminfo::headers_at(raw, a) + oeminfo::headers_at(
            raw,
            b,
        ),
    decreases b.len(),
{
    if b.len() == 0 {
        assert(a + b =~= a);
        assert(oeminfo::headers_at(raw, a) + oeminfo::headers_at(raw, b) =~= oeminfo::headers_at(
            raw,
            a,
        ));
    } else {
        lemma_headers_join(raw, a, b.drop_last());
        assert((a + b).drop_last() =~= a + b.drop_last());
        assert((a + b).last() == b.last());
        assert(oeminfo::headers_at(raw, a + b) =~= oeminfo::headers_at(raw, a)
            + oeminfo::headers_at(raw, b));
    }
}

/// Places where two images have the same headers.
proof fn lemma_headers_same(a: Seq<u8>, b: Seq<u8>, offsets: Seq<int>)
    requires
        forall|k: int|
            0 <= k < offsets.len() ==> header::header_at(a, #[trigger] offsets[k])
                == header::header_at(b, offsets[k]),
    ensures
        oeminfo::headers_at(a, offsets) == oeminfo::headers_at(b, offsets),
    decreases offsets.len(),
{
    if offsets.len() > 0 {
        let rest = offsets.drop_last();
        assert forall|k: int| 0 <= k < rest.len() implies header::header_at(a, #[trigger] rest[k])
            == header::header_at(b, rest[k]) by {
            assert(rest[k] == offsets[k]);
        }
        lemma_headers_same(a, b, rest);
        assert(offsets.last() == offsets[offsets.len() - 1]);
    }
}

/// True when every header starts from `low` on, and before `high`.
spec fn lie_within(headers: Seq<BlockHeader>, low: int, high: int) -> bool {
    forall|k: int|
        0 <= k < headers.len() ==> low <= (#[trigger] headers[k]).offset < high
            && headers[k].end() >= headers[k].offset + 0x40
}

/// Headers start where the magic stands.
proof fn lemma_headers_within(raw: Seq<u8>, offsets: Seq<int>, low: int, high: int)
    requires
        raw.len() <= usize::MAX,
        0 <= low,
        forall|k: int| 0 <= k < offsets.len() ==> low <= #[trigger] offsets[k] < high,
    ensures
        lie_within(oeminfo::headers_at(raw, offsets), low, high),
    decreases offsets.len(),
{
    if offsets.len() > 0 {
        let rest = offsets.drop_last();
        assert forall|k: int| 0 <= k < rest.len() implies low <= #[trigger] rest[k] < high by {
            assert(rest[k] == offsets[k]);
        }
        lemma_headers_within(raw, rest, low, high);
        let at = offsets.last();
        assert(at == offsets[offsets.len() - 1]);
        let all = oeminfo::headers_at(raw, offsets);
        let before = oeminfo::headers_at(raw, rest);
        assert forall|k: int| 0 <= k < all.len() implies low <= (#[trigger] all[k]).offset < high
            && all[k].end() >= all[k].offset + 0x40 by {
            if k < before.len() {
                assert(all[k] == before[k]);
            }
        }
    }
}

// ---------------------------------------------------------------------------
// Kept blocks
// ---------------------------------------------------------------------------

/// Where the last block that is kept ends.
spec fn kept_end(headers: Seq<BlockHeader>, end: int) -> int
    decreases headers.len(),
{
    if headers.len() == 0 {
        end
    } else if headers[0].offset < end {
        kept_end(headers.skip(1), end)
    } else {
        kept_end(headers.skip(1), headers[0].end())
    }
}

/// What is kept of some headers and then of others.
proof fn lemma_kept_join(a: Seq<BlockHeader>, b: Seq<BlockHeader>, end: int)
    ensures
        bank::kept(a + b, end) == bank::kept(a, end) + bank::kept(b, kept_end(a, end)),
        kept_end(a + b, end) == kept_end(b, kept_end(a, end)),
    decreases a.len(),
{
    if a.len() == 0 {
        assert(a + b =~= b);
        assert(bank::kept(a, end) + bank::kept(b, end) =~= bank::kept(b, end));
    } else {
        assert((a + b)[0] == a[0]);
        assert((a + b).skip(1) =~= a.skip(1) + b);
        let next = if a[0].offset < end {
            end
        } else {
            a[0].end()
        };
        lemma_kept_join(a.skip(1), b, next);
        assert(bank::kept(a + b, end) =~= bank::kept(a, end) + bank::kept(b, kept_end(a, end)));
    }
}

/// The end of what is kept is that of the last kept block.
#[verifier::rlimit(50)]
#[verifier::spinoff_prover]
proof fn lemma_kept_end(headers: Seq<BlockHeader>, end: int)
    ensures
        kept_end(headers, end) == if bank::kept(headers, end).len() == 0 {
            end
        } else {
            bank::kept(headers, end).last().end()
        },
        forall|k: int|
            0 <= k < bank::kept(headers, end).len() ==> headers.contains(
                #[trigger] bank::kept(headers, end)[k],
            ),
    decreases headers.len(),
{
    if headers.len() > 0 {
        let next = if headers[0].offset < end {
            end
        } else {
            headers[0].end()
        };
        lemma_kept_end(headers.skip(1), next);
        let rest = bank::kept(headers.skip(1), next);
        let all = bank::kept(headers, end);
        assert forall|k: int| 0 <= k < all.len() implies headers.contains(#[trigger] all[k]) by {
            if headers[0].offset < end {
                assert(all[k] == rest[k]);
                assert(headers.skip(1).contains(rest[k]));
                let m = choose|m: int| 0 <= m < headers.skip(1).len() && headers.skip(1)[m] == rest[k];
                assert(headers[m + 1] == rest[k]);
            } else if k > 0 {
                assert(all[k] == rest[k - 1]);
                assert(headers.skip(1).contains(rest[k - 1]));
                let m = choose|m: int|
                    0 <= m < headers.skip(1).len() && headers.skip(1)[m] == rest[k - 1];
                assert(headers[m + 1] == rest[k - 1]);
            } else {
                assert(headers[0] == all[0]);
            }
        }
    }
}

/// Kept blocks lie where the headers lie.
proof fn lemma_kept_within(headers: Seq<BlockHeader>, end: int, low: int, high: int)
    requires
        lie_within(headers, low, high),
    ensures
        lie_within(bank::kept(headers, end), low, high),
{
    lemma_kept_end(headers, end);
    let all = bank::kept(headers, end);
    assert forall|k: int| 0 <= k < all.len() implies low <= (#[trigger] all[k]).offset < high
        && all[k].end() >= all[k].offset + 0x40 by {
        assert(headers.contains(all[k]));
        let m = choose|m: int| 0 <= m < headers.len() && headers[m] == all[k];
        assert(low <= headers[m].offset);
    }
}

/// Headers that all start before the end are dropped.
proof fn lemma_kept_none(headers: Seq<BlockHeader>, end: int)
    requires
        forall|k: int| 0 <= k < headers.len() ==> (#[trigger] headers[k]).offset < end,
    ensures
        bank::kept(headers, end) == Seq::<BlockHeader>::empty(),
        kept_end(headers, end) == end,
    decreases headers.len(),
{
    if headers.len() > 0 {
        assert(headers[0].offset < end);
        let rest = headers.skip(1);
        assert forall|k: int| 0 <= k < rest.len() implies (#[trigger] rest[k]).offset < end by {
            assert(rest[k] == headers[k + 1]);
        }
        lemma_kept_none(rest, end);
    } else {
        assert(bank::kept(headers, end) =~= Seq::<BlockHeader>::empty());
    }
}

/// What is kept is the same for any two ends before the first header.
proof fn lemma_kept_from(headers: Seq<BlockHeader>, a: int, b: int)
    requires
        headers.len() > 0 ==> headers[0].offset >= a && headers[0].offset >= b,
    ensures
        bank::kept(headers, a) == bank::kept(headers, b),
{
}

/// True when writing to the bytes from `target` up to `end` makes no magic
/// and no header out of bytes of which some were there before: none that lies
/// across an end of what was written, and none just before it whose padding
/// was written over.
pub open spec fn is_parted(raw: Seq<u8>, written: Seq<u8>, target: int, end: int) -> bool {
    &&& forall|p: int| target - 8 < p < target ==> !has_magic(written, p)
    &&& forall|p: int| end - 8 < p < end ==> !has_magic(written, p) && !has_magic(raw, p)
    &&& forall|p: int|
        target - 0x200 < p < target ==> #[trigger] header::header_at(written, p)
            == header::header_at(raw, p)
}

/// True when the block that is written has a header, and no magic stands behind
/// its payload.
spec fn is_fresh(written: Seq<u8>, target: int, end: int, new: BlockHeader) -> bool {
    &&& has_magic(written, target)
    &&& header::header_at(written, target) == Some(new)
    &&& new.offset == target
    &&& target + 0x40 <= new.end() <= end
    &&& forall|p: int| new.end() <= p < end ==> !has_magic(written, p)
}

/// The blocks of an image before and after a block was written: those before
/// the slot and those behind it are the same.
struct Parts {
    before: Seq<BlockHeader>,
    old: Seq<BlockHeader>,
    behind: Seq<BlockHeader>,
}

/// True when every kept block but one in the slot keeps clear of what is
/// written, and one in the slot ends within.
spec fn is_spared(kept: Seq<BlockHeader>, target: int, end: int) -> bool {
    forall|k: int|
        0 <= k < kept.len() ==> {
            let h = #[trigger] kept[k];
            &&& h.offset == target || h.offset >= end || h.end() <= target
            &&& h.offset == target ==> h.end() <= end
        }
}

/// The candidates of the two images, in parts.
#[verifier::rlimit(50)]
#[verifier::spinoff_prover]
proof fn lemma_candidates(raw: Seq<u8>, written: Seq<u8>, target: int, end: int, new: BlockHeader) -> (
    parts: (Seq<BlockHeader>, Seq<BlockHeader>, Seq<BlockHeader>, Seq<BlockHeader>))
    requires
        raw.len() <= usize::MAX,
        written.len() == raw.len(),
        0 <= target,
        target + 0x200 <= end <= raw.len(),
        forall|k: int| 0 <= k < raw.len() && !(target <= k < end) ==> written[k] == raw[k],
        is_parted(raw, written, target, end),
        is_fresh(written, target, end, new),
    ensures
        oeminfo::candidates(raw) == parts.0 + parts.1 + parts.3,
        oeminfo::candidates(written) == parts.0 + (seq![new] + parts.2) + parts.3,
        lie_within(parts.0, 0, target),
        lie_within(parts.1, 0, end),
        forall|k: int| 0 <= k < parts.1.len() ==> (#[trigger] parts.1[k]).offset > target - 8,
        forall|k: int| 0 <= k < parts.2.len() ==> (#[trigger] parts.2[k]).offset < new.end(),
        lie_within(parts.3, end, raw.len() as int),
{
    assert(OEMINFO_MAGIC@.len() == 8);
    let front = header::magic_offsets(raw.take(target), 0);
    assert(raw.take(target) =~= written.take(target));
    // The image as it was.
    let c = lemma_search_parts(raw, 0, target);
    let d = lemma_search_parts(raw, c, end);
    lemma_search_skips(raw, d, end);
    let middle = header::magic_offsets(raw.take(end), c);
    let back = header::magic_offsets(raw, end);
    assert(header::magic_offsets(raw, 0) =~= front + middle + back);
    // The image as it is written.
    let f = lemma_search_parts(written, 0, target);
    lemma_search_skips(written, f, target);
    lemma_first(written, target);
    assert(bytes::first_match(written, OEMINFO_MAGIC@, target) == Some(target));
    let g = lemma_search_parts(written, target + 8, end);
    lemma_search_skips(written, g, end);
    lemma_search_behind(written, raw, end);
    let fresh = header::magic_offsets(written.take(end), target + 8);
    assert(header::magic_offsets(written, target) == seq![target] + (fresh + back));
    assert(header::magic_offsets(written, 0) =~= front + (seq![target] + fresh) + back);
    // Where they lie.
    assert forall|k: int| 0 <= k < front.len() implies 0 <= #[trigger] front[k] < target by {
        lemma_search_finds(raw.take(target), 0, k);
    }
    assert forall|k: int| 0 <= k < middle.len() implies target - 8 < #[trigger] middle[k] < end
        && 0 <= middle[k] by {
        lemma_search_finds(raw.take(end), c, k);
        lemma_magic_same(raw, raw.take(end), middle[k]);
    }
    assert forall|k: int| 0 <= k < fresh.len() implies target + 8 <= #[trigger] fresh[k]
        < new.end() by {
        lemma_search_finds(written.take(end), target + 8, k);
        lemma_magic_same(written, written.take(end), fresh[k]);
    }
    assert forall|k: int| 0 <= k < back.len() implies end <= #[trigger] back[k] < raw.len() by {
        lemma_search_finds(raw, end, k);
    }
    // What they are.
    assert forall|k: int| 0 <= k < front.len() implies header::header_at(
        written,
        #[trigger] front[k],
    ) == header::header_at(raw, front[k]) by {
        let p = front[k];
        if p + 0x200 <= target {
            lemma_header_local(written, raw, p);
        }
    }
    assert forall|k: int| 0 <= k < back.len() implies header::header_at(
        written,
        #[trigger] back[k],
    ) == header::header_at(raw, back[k]) by {
        lemma_header_local(written, raw, back[k]);
    }
    lemma_headers_same(written, raw, front);
    lemma_headers_same(written, raw, back);
    let low = if target - 7 < 0 {
        0
    } else {
        target - 7
    };
    lemma_headers_within(raw, front, 0, target);
    lemma_headers_within(raw, middle, low, end);
    lemma_headers_within(written, fresh, 0, new.end());
    lemma_headers_within(raw, back, end, raw.len() as int);
    lemma_headers_join(raw, front + middle, back);
    lemma_headers_join(raw, front, middle);
    lemma_headers_join(written, front + (seq![target] + fresh), back);
    lemma_headers_join(written, front, seq![target] + fresh);
    lemma_headers_join(written, seq![target], fresh);
    let one = seq![target];
    assert(one.drop_last() =~= seq![]);
    assert(oeminfo::headers_at(written, one.drop_last()) =~= seq![]);
    assert(one.last() == target);
    assert(oeminfo::headers_at(written, one) =~= seq![new]);
    let h1 = oeminfo::headers_at(raw, front);
    let h2 = oeminfo::headers_at(raw, middle);
    let n2 = oeminfo::headers_at(written, fresh);
    let h3 = oeminfo::headers_at(raw, back);
    assert(lie_within(h2, 0, end)) by {
        assert forall|k: int| 0 <= k < h2.len() implies 0 <= (#[trigger] h2[k]).offset < end
            && h2[k].end() >= h2[k].offset + 0x40 by {}
    }
    (h1, h2, n2, h3)
}

/// The kept blocks of the two images.
#[verifier::rlimit(50)]
#[verifier::spinoff_prover]
proof fn lemma_kept_parts(raw: Seq<u8>, written: Seq<u8>, target: int, end: int, new: BlockHeader) -> (
    parts: Parts)
    requires
        raw.len() <= usize::MAX,
        written.len() == raw.len(),
        0 <= target,
        target + 0x200 <= end <= raw.len(),
        forall|k: int| 0 <= k < raw.len() && !(target <= k < end) ==> written[k] == raw[k],
        is_parted(raw, written, target, end),
        is_fresh(written, target, end, new),
        is_spared(bank::kept(oeminfo::candidates(raw), 0), target, end),
    ensures
        bank::kept(oeminfo::candidates(raw), 0) == parts.before + parts.old + parts.behind,
        bank::kept(oeminfo::candidates(written), 0) == parts.before + seq![new] + parts.behind,
        lie_within(parts.before, 0, target),
        forall|k: int| 0 <= k < parts.old.len() ==> (#[trigger] parts.old[k]).offset == target,
        lie_within(parts.behind, end, raw.len() as int),
{
    let (h1, h2, n2, h3) = lemma_candidates(raw, written, target, end, new);
    let all = bank::kept(oeminfo::candidates(raw), 0);
    lemma_kept_join(h1 + h2, h3, 0);
    lemma_kept_join(h1, h2, 0);
    let k1 = bank::kept(h1, 0);
    let e1 = kept_end(h1, 0);
    let k2 = bank::kept(h2, e1);
    let e2 = kept_end(h2, e1);
    let k3 = bank::kept(h3, e2);
    assert(all == k1 + k2 + k3);
    lemma_kept_within(h1, 0, 0, target);
    lemma_kept_within(h2, e1, 0, end);
    lemma_kept_within(h3, e2, end, raw.len() as int);
    lemma_kept_end(h1, 0);
    lemma_kept_end(h2, e1);
    assert(e1 <= target) by {
        if k1.len() > 0 {
            let last = k1.len() - 1;
            assert(all[last] == k1[last]);
        }
    }
    assert forall|k: int| 0 <= k < k2.len() implies (#[trigger] k2[k]).offset == target
        && k2[k].end() <= end by {
        assert(all[k1.len() + k] == k2[k]);
        assert(h2.contains(k2[k]));
        let m = choose|m: int| 0 <= m < h2.len() && h2[m] == k2[k];
        assert(h2[m].offset > target - 8);
    }
    assert(e2 <= end) by {
        if k2.len() > 0 {
            assert(k2[k2.len() - 1].end() <= end);
        }
    }
    // The image as it is written.
    let one = seq![new];
    lemma_kept_join(h1 + (one + n2), h3, 0);
    lemma_kept_join(h1, one + n2, 0);
    lemma_kept_join(one, n2, e1);
    assert(one.skip(1) =~= Seq::<BlockHeader>::empty());
    assert(bank::kept(one.skip(1), new.end()) =~= Seq::<BlockHeader>::empty());
    assert(bank::kept(one, e1) =~= one);
    assert(kept_end(one.skip(1), new.end()) == new.end());
    assert(kept_end(one, e1) == new.end());
    lemma_kept_none(n2, new.end());
    assert(h3.len() > 0 ==> h3[0].offset >= end);
    lemma_kept_from(h3, e2, new.end());
    assert(bank::kept(one + n2, e1) =~= one);
    assert(bank::kept(oeminfo::candidates(written), 0) =~= k1 + one + k3);
    Parts { before: k1, old: k2, behind: k3 }
}

// ---------------------------------------------------------------------------
// The size of a bank
// ---------------------------------------------------------------------------

/// True when two blocks are copies of one item at one place.
spec fn is_alike(a: BlockHeader, b: BlockHeader) -> bool {
    a.offset == b.offset && bank::copy_key(a) == bank::copy_key(b)
}

spec fn are_alike(a: Seq<BlockHeader>, b: Seq<BlockHeader>) -> bool {
    &&& a.len() == b.len()
    &&& forall|k: int| 0 <= k < a.len() ==> is_alike(#[trigger] a[k], b[k])
}

proof fn lemma_distances_to_same(
    file_size: int,
    a: Seq<BlockHeader>,
    b: Seq<BlockHeader>,
    x: BlockHeader,
    y: BlockHeader,
)
    requires
        are_alike(a, b),
        is_alike(x, y),
    ensures
        bank::distances_to(file_size, a, x) == bank::distances_to(file_size, b, y),
    decreases a.len(),
{
    if a.len() > 0 {
        let c = a.drop_last();
        let d = b.drop_last();
        assert forall|k: int| 0 <= k < c.len() implies is_alike(#[trigger] c[k], d[k]) by {
            assert(is_alike(a[k], b[k]));
        }
        lemma_distances_to_same(file_size, c, d, x, y);
        assert(is_alike(a[a.len() - 1], b[a.len() - 1]));
    }
}

/// Copies at the same places have the same distances.
proof fn lemma_distances_same(file_size: int, a: Seq<BlockHeader>, b: Seq<BlockHeader>)
    requires
        are_alike(a, b),
    ensures
        bank::distances(file_size, a) == bank::distances(file_size, b),
    decreases a.len(),
{
    if a.len() > 0 {
        let c = a.drop_last();
        let d = b.drop_last();
        assert forall|k: int| 0 <= k < c.len() implies is_alike(#[trigger] c[k], d[k]) by {
            assert(is_alike(a[k], b[k]));
        }
        lemma_distances_same(file_size, c, d);
        assert(is_alike(a[a.len() - 1], b[a.len() - 1]));
        lemma_distances_to_same(file_size, c, d, a.last(), b.last());
    }
}

/// Copies at the same places have banks of the same size.
proof fn lemma_bank_size_same(
    file_size: int,
    a: Seq<BlockHeader>,
    b: Seq<BlockHeader>,
    size_a: int,
    size_b: int,
)
    requires
        are_alike(a, b),
        bank::is_region_size(file_size, a, size_a),
        bank::is_region_size(file_size, b, size_b),
    ensures
        size_a == size_b,
{
    lemma_distances_same(file_size, a, b);
    let list = bank::distances(file_size, a);
    if exists|d: int| #[trigger] bank::occurrences(list, d) >= 2 {
        assert(bank::occurrences(list, size_a) >= 2);
        assert(bank::occurrences(list, size_b) >= 2);
    }
}

/// 1 when the pair of blocks counts as distance `d`, else 0.
spec fn pair_count(file_size: int, a: BlockHeader, b: BlockHeader, d: int) -> nat {
    if bank::copy_key(a) == bank::copy_key(b) && bank::may_part_banks(
        file_size,
        b.offset - a.offset,
    ) && b.offset - a.offset == d {
        1
    } else {
        0
    }
}

/// How often block `h` has distance `d` to the blocks before it.
spec fn count_before(file_size: int, headers: Seq<BlockHeader>, h: BlockHeader, d: int) -> nat
    decreases headers.len(),
{
    if headers.len() == 0 {
        0
    } else {
        count_before(file_size, headers.drop_last(), h, d) + pair_count(
            file_size,
            headers.last(),
            h,
            d,
        )
    }
}

/// How often the blocks behind block `h` have distance `d` to it.
spec fn count_behind(file_size: int, h: BlockHeader, headers: Seq<BlockHeader>, d: int) -> nat
    decreases headers.len(),
{
    if headers.len() == 0 {
        0
    } else {
        count_behind(file_size, h, headers.drop_last(), d) + pair_count(
            file_size,
            h,
            headers.last(),
            d,
        )
    }
}

proof fn lemma_occurrences_join(a: Seq<int>, b: Seq<int>, d: int)
    ensures
        bank::occurrences(a + b, d) == bank::occurrences(a, d) + bank::occurrences(b, d),
    decreases b.len(),
{
    if b.len() == 0 {
        assert(a + b =~= a);
    } else {
        lemma_occurrences_join(a, b.drop_last(), d);
        assert((a + b).drop_last() =~= a + b.drop_last());
    }
}

proof fn lemma_count_before(file_size: int, headers: Seq<BlockHeader>, h: BlockHeader, d: int)
    ensures
        bank::occurrences(bank::distances_to(file_size, headers, h), d) == count_before(
            file_size,
            headers,
            h,
            d,
        ),
    decreases headers.len(),
{
    if headers.len() > 0 {
        lemma_count_before(file_size, headers.drop_last(), h, d);
        let before = bank::distances_to(file_size, headers.drop_last(), h);
        let far = h.offset - headers.last().offset;
        assert(before.push(far).drop_last() =~= before);
    }
}

proof fn lemma_count_with(
    file_size: int,
    a: Seq<BlockHeader>,
    x: BlockHeader,
    b: Seq<BlockHeader>,
    h: BlockHeader,
    d: int,
)
    ensures
        count_before(file_size, a + seq![x] + b, h, d) == count_before(file_size, a + b, h, d)
            + pair_count(file_size, x, h, d),
    decreases b.len(),
{
    if b.len() == 0 {
        assert(a + seq![x] + b =~= a.push(x));
        assert(a.push(x).drop_last() =~= a);
        assert(a + b =~= a);
    } else {
        lemma_count_with(file_size, a, x, b.drop_last(), h, d);
        assert((a + seq![x] + b).drop_last() =~= a + seq![x] + b.drop_last());
        assert((a + b).drop_last() =~= a + b.drop_last());
    }
}

/// One more block adds its distances to the others.
proof fn lemma_distances_with(
    file_size: int,
    a: Seq<BlockHeader>,
    x: BlockHeader,
    b: Seq<BlockHeader>,
    d: int,
)
    ensures
        bank::occurrences(bank::distances(file_size, a + seq![x] + b), d) == bank::occurrences(
            bank::distances(file_size, a + b),
            d,
        ) + count_before(file_size, a, x, d) + count_behind(file_size, x, b, d),
    decreases b.len(),
{
    if b.len() == 0 {
        assert(a + seq![x] + b =~= a.push(x));
        assert(a.push(x).drop_last() =~= a);
        assert(a + b =~= a);
        lemma_occurrences_join(
            bank::distances(file_size, a),
            bank::distances_to(file_size, a, x),
            d,
        );
        lemma_count_before(file_size, a, x, d);
    } else {
        let c = b.drop_last();
        let h = b.last();
        lemma_distances_with(file_size, a, x, c, d);
        assert((a + seq![x] + b).drop_last() =~= a + seq![x] + c);
        assert((a + b).drop_last() =~= a + c);
        lemma_occurrences_join(
            bank::distances(file_size, a + seq![x] + c),
            bank::distances_to(file_size, a + seq![x] + c, h),
            d,
        );
        lemma_occurrences_join(
            bank::distances(file_size, a + c),
            bank::distances_to(file_size, a + c, h),
            d,
        );
        lemma_count_before(file_size, a + seq![x] + c, h, d);
        lemma_count_before(file_size, a + c, h, d);
        lemma_count_with(file_size, a, x, c, h, d);
    }
}

/// True when the copies of block `x` lie a bank away from it.
spec fn is_mirrored(a: Seq<BlockHeader>, x: BlockHeader, b: Seq<BlockHeader>, size: int) -> bool {
    &&& forall|k: int|
        0 <= k < a.len() && bank::copy_key(#[trigger] a[k]) == bank::copy_key(x) ==> x.offset
            - a[k].offset == size
    &&& forall|k: int|
        0 <= k < b.len() && bank::copy_key(#[trigger] b[k]) == bank::copy_key(x) ==> b[k].offset
            - x.offset == size
}

proof fn lemma_no_other_before(
    file_size: int,
    a: Seq<BlockHeader>,
    x: BlockHeader,
    size: int,
    d: int,
)
    requires
        forall|k: int|
            0 <= k < a.len() && bank::copy_key(#[trigger] a[k]) == bank::copy_key(x) ==> x.offset
                - a[k].offset == size,
        d != size,
    ensures
        count_before(file_size, a, x, d) == 0,
    decreases a.len(),
{
    if a.len() > 0 {
        let c = a.drop_last();
        assert forall|k: int|
            0 <= k < c.len() && bank::copy_key(#[trigger] c[k]) == bank::copy_key(
                x,
            ) implies x.offset - c[k].offset == size by {
            assert(c[k] == a[k]);
        }
        lemma_no_other_before(file_size, c, x, size, d);
        assert(a.last() == a[a.len() - 1]);
    }
}

proof fn lemma_no_other_behind(
    file_size: int,
    x: BlockHeader,
    b: Seq<BlockHeader>,
    size: int,
    d: int,
)
    requires
        forall|k: int|
            0 <= k < b.len() && bank::copy_key(#[trigger] b[k]) == bank::copy_key(x) ==> b[k].offset
                - x.offset == size,
        d != size,
    ensures
        count_behind(file_size, x, b, d) == 0,
    decreases b.len(),
{
    if b.len() > 0 {
        let c = b.drop_last();
        assert forall|k: int|
            0 <= k < c.len() && bank::copy_key(#[trigger] c[k]) == bank::copy_key(
                x,
            ) implies c[k].offset - x.offset == size by {
            assert(c[k] == b[k]);
        }
        lemma_no_other_behind(file_size, x, c, size, d);
        assert(b.last() == b[b.len() - 1]);
    }
}

/// One more block a bank away from its copies leaves the banks as they are.
#[verifier::rlimit(50)]
#[verifier::spinoff_prover]
proof fn lemma_mirror_keeps_banks(
    file_size: int,
    a: Seq<BlockHeader>,
    x: BlockHeader,
    b: Seq<BlockHeader>,
    size: int,
    now: int,
)
    requires
        bank::is_region_size(file_size, a + b, size),
        bank::is_region_size(file_size, a + seq![x] + b, now),
        is_mirrored(a, x, b, size),
    ensures
        now == size,
{
    let old_list = bank::distances(file_size, a + b);
    let new_list = bank::distances(file_size, a + seq![x] + b);
    assert forall|d: int|
        d != size implies #[trigger] bank::occurrences(new_list, d) == bank::occurrences(
        old_list,
        d,
    ) by {
        lemma_distances_with(file_size, a, x, b, d);
        lemma_no_other_before(file_size, a, x, size, d);
        lemma_no_other_behind(file_size, x, b, size, d);
    }
    lemma_distances_with(file_size, a, x, b, size);
    assert(bank::occurrences(new_list, size) >= bank::occurrences(old_list, size));
    if now != size {
        assert(bank::occurrences(new_list, now) == bank::occurrences(old_list, now));
        if exists|d: int| #[trigger] bank::occurrences(new_list, d) >= 2 {
            assert(bank::occurrences(new_list, now) >= 2);
            assert(bank::occurrences(old_list, now) >= 2);
            assert(bank::occurrences(old_list, size) >= 2);
            assert(bank::preferred(file_size, old_list, size, now));
            assert(bank::occurrences(new_list, size) >= 2);
            assert(bank::preferred(file_size, new_list, now, size));
        } else {
            assert(now == bank::half(file_size));
            if exists|d: int| #[trigger] bank::occurrences(old_list, d) >= 2 {
                assert(bank::occurrences(old_list, size) >= 2);
                assert(bank::occurrences(new_list, size) >= 2);
            }
        }
    }
}

/// Compacting leaves the banks as they are.
proof fn lemma_compacted_alike(headers: Seq<BlockHeader>)
    ensures
        are_alike(bank::compacted(headers), headers),
{
    let c = bank::compacted(headers);
    assert forall|k: int| 0 <= k < c.len() implies is_alike(#[trigger] c[k], headers[k]) by {
        lemma_compacted_fields(headers, k);
    }
}

// ---------------------------------------------------------------------------
// Written images
// ---------------------------------------------------------------------------

/// Every logo is on the list of logos.
proof fn lemma_logo_listed(blocks: Seq<ParsedBlock>, m: int)
    requires
        0 <= m < blocks.len(),
        blocks[m].header.id == OEMINFO_BOOT_LOGO_ID,
    ensures
        logo::logos(blocks).contains(m),
        blocks[m].header.age <= logo::highest_age(blocks),
    decreases blocks.len(),
{
    let rest = blocks.drop_last();
    let list = logo::logos(blocks);
    if m < blocks.len() - 1 {
        assert(rest[m] == blocks[m]);
        lemma_logo_listed(rest, m);
        let before = logo::logos(rest);
        let k = choose|k: int| 0 <= k < before.len() && before[k] == m;
        assert(list[k] == m);
    } else {
        assert(list.last() == m);
        assert(list[list.len() - 1] == m);
    }
}

/// A block in the slot ends within what is written.
proof fn lemma_slot_covered(blocks: Seq<ParsedBlock>, target: int, payload_len: int, i: int)
    requires
        0 <= i < blocks.len(),
        blocks[i].header.offset == target,
        forall|k: int| 0 <= k < i ==> (#[trigger] blocks[k]).header.offset != target,
    ensures
        blocks[i].header.end() <= logo::write_end(blocks, target, payload_len),
    decreases i,
{
    if i > 0 {
        assert(blocks[0].header.offset != target);
        let rest = blocks.skip(1);
        assert forall|k: int| 0 <= k < i - 1 implies (#[trigger] rest[k]).header.offset
            != target by {
            assert(rest[k] == blocks[k + 1]);
        }
        lemma_slot_covered(rest, target, payload_len, i - 1);
    }
}

/// Headers state a plausible version.
proof fn lemma_plausible(raw: Seq<u8>, offsets: Seq<int>)
    ensures
        forall|k: int|
            0 <= k < oeminfo::headers_at(raw, offsets).len() ==> 0 < (#[trigger] oeminfo::headers_at(
                raw,
                offsets,
            )[k]).version <= header::MAX_PLAUSIBLE_VERSION,
    decreases offsets.len(),
{
    if offsets.len() > 0 {
        let rest = offsets.drop_last();
        lemma_plausible(raw, rest);
        let before = oeminfo::headers_at(raw, rest);
        let all = oeminfo::headers_at(raw, offsets);
        assert forall|k: int| 0 <= k < all.len() implies 0 < (#[trigger] all[k]).version
            <= header::MAX_PLAUSIBLE_VERSION by {
            if k < before.len() {
                assert(all[k] == before[k]);
            }
        }
    }
}

/// What compacting keeps of each header.
proof fn lemma_compacted_fields(headers: Seq<BlockHeader>, i: int)
    requires
        0 <= i < headers.len(),
    ensures
        bank::compacted(headers).len() == headers.len(),
        ({
            let c = bank::compacted(headers)[i];
            let h = headers[i];
            &&& c.offset == h.offset
            &&& c.id == h.id
            &&& c.length == h.length
            &&& c.header_size == h.header_size
            &&& c.age == h.age
            &&& c.version == h.version
            &&& c.end() == h.end()
            &&& bank::copy_key(c) == bank::copy_key(h)
        }),
{
}

/// The image that a plan is written to.
pub open spec fn written_image(raw: Seq<u8>, plan: PlanModel) -> Seq<u8> {
    bytes::patched(raw, plan.target, plan.block)
}

/// Behind its payload a new block is filled.
proof fn lemma_block_fill(
    version: int,
    age: int,
    image_version: Seq<u8>,
    data: Seq<u8>,
    size: int,
    k: int,
)
    requires
        image_version.len() == 12,
        0x200 + 26 + data.len() <= k < size,
    ensures
        logo::block_bytes(version, age, image_version, data, size)[k] == 0xff,
{
    assert(OEMINFO_MAGIC@.len() == 8);
}

/// The blocks of a parsed image are those that its bytes hold.
proof fn lemma_parsed<F: Fn(&[u8]) -> bool>(judge: F, image: OemInfoImage, i: int)
    requires
        image.is_parse_of(judge, image.bytes()),
        0 <= i < image.parsed().len(),
    ensures
        ({
            let kept = bank::kept(oeminfo::candidates(image.bytes()), 0);
            let b = image.parsed()[i];
            &&& kept.len() == image.parsed().len()
            &&& b.header == oeminfo::image_headers(image.bytes())[i]
            &&& b.header == image.headers()[i]
            &&& b.header.offset == kept[i].offset
            &&& b.header.id == kept[i].id
            &&& b.header.age == kept[i].age
            &&& b.header.header_size == kept[i].header_size
            &&& b.header.end() == kept[i].end()
            &&& bank::copy_key(b.header) == bank::copy_key(kept[i])
            &&& b.active == bank::is_active(
                oeminfo::image_headers(image.bytes()),
                image.bank_size(),
                i,
            )
            &&& 0 < b.header.version <= header::MAX_PLAUSIBLE_VERSION
        }),
{
    let raw = image.bytes();
    let found = oeminfo::candidates(raw);
    let kept = bank::kept(found, 0);
    let headers = oeminfo::image_headers(raw);
    assert(headers.len() == kept.len());
    assert(oeminfo::is_block(judge, raw, headers, image.bank_size(), i, image.parsed()[i]));
    lemma_compacted_fields(kept, i);
    lemma_kept_end(found, 0);
    assert(found.contains(kept[i]));
    lemma_plausible(raw, header::magic_offsets(raw, 0));
    let m = choose|m: int| 0 <= m < found.len() && found[m] == kept[i];
    assert(0 < found[m].version <= header::MAX_PLAUSIBLE_VERSION);
}

/// The kept blocks of an image for which there is a plan keep clear of what is
/// written.
#[verifier::rlimit(50)]
#[verifier::spinoff_prover]
proof fn lemma_plan_spares<F: Fn(&[u8]) -> bool>(
    judge: F,
    old: OemInfoImage,
    target: int,
    payload_len: int,
)
    requires
        old.well_formed(),
        old.is_parse_of(judge, old.bytes()),
        logo::is_clear(
            old.parsed(),
            target,
            logo::write_end(old.parsed(), target, payload_len),
        ),
    ensures
        is_spared(
            bank::kept(oeminfo::candidates(old.bytes()), 0),
            target,
            logo::write_end(old.parsed(), target, payload_len),
        ),
{
    let blocks = old.parsed();
    let end = logo::write_end(blocks, target, payload_len);
    let kept = bank::kept(oeminfo::candidates(old.bytes()), 0);
    assert(oeminfo::image_headers(old.bytes()).len() == kept.len());
    assert forall|k: int| 0 <= k < kept.len() implies {
        let h = #[trigger] kept[k];
        &&& h.offset == target || h.offset >= end || h.end() <= target
        &&& h.offset == target ==> h.end() <= end
    } by {
        lemma_parsed(judge, old, k);
        if kept[k].offset == target {
            assert forall|j: int| 0 <= j < k implies (#[trigger] blocks[j]).header.offset
                != target by {
                assert(old.headers()[j].end() <= old.headers()[k].offset);
                assert(old.headers()[j].fits(old.bytes().len() as int));
                assert(old.headers()[j] == blocks[j].header);
                assert(old.headers()[k] == blocks[k].header);
            }
            lemma_slot_covered(blocks, target, payload_len, k);
        }
    }
}

/// The header of the block that a plan writes.
pub open spec fn planned_header(old: OemInfoImage, plan: PlanModel) -> BlockHeader {
    logo::new_header(
        plan.target,
        old.parsed()[logo::chosen(old.parsed())->Ok_0.0].header.version as int,
        plan.age,
        plan.payload_len,
    )
}

/// A block that was written has its header, and no magic behind its payload.
#[verifier::rlimit(50)]
#[verifier::spinoff_prover]
proof fn lemma_written_block(
    raw: Seq<u8>,
    target: int,
    version: int,
    age: int,
    image_version: Seq<u8>,
    data: Seq<u8>,
    size: int,
)
    requires
        0 < version <= header::MAX_PLAUSIBLE_VERSION,
        0 <= age <= header::OEMINFO_MAX_AGE,
        image_version.len() == 12,
        26 + data.len() <= 0xffff_fff0,
        0x200 + 26 + data.len() <= size,
        0 <= target,
        target + size <= raw.len() <= usize::MAX,
    ensures
        ({
            let block = logo::block_bytes(version, age, image_version, data, size);
            let written = bytes::patched(raw, target, block);
            let new = logo::new_header(target, version, age, 26 + data.len() as int);
            &&& block.len() == size
            &&& written.len() == raw.len()
            &&& forall|k: int|
                0 <= k < raw.len() && !(target <= k < target + size) ==> written[k] == raw[k]
            &&& is_fresh(written, target, target + size, new)
        }),
{
    let block = logo::block_bytes(version, age, image_version, data, size);
    let written = bytes::patched(raw, target, block);
    let new = logo::new_header(target, version, age, 26 + data.len() as int);
    logo::lemma_block_length(version, age, image_version, data, size);
    logo::lemma_block_fields(version, age, image_version, data, size);
    logo::lemma_block_header(raw, target, block, version, age, image_version, data);
    logo::law_rest_of_the_image_stays(raw, target, block);
    assert forall|p: int| new.end() <= p < target + size implies !has_magic(written, p) by {
        lemma_block_fill(version, age, image_version, data, size, p - target);
        assert(written[p] == block[p - target]);
        if has_magic(written, p) {
            assert(OEMINFO_MAGIC@.len() == 8);
            assert(written.subrange(p, p + 8)[0] == OEMINFO_MAGIC@[0]);
            assert(OEMINFO_MAGIC@[0] == 0x4f);
        }
    }
}

/// What a plan writes, and where.
#[verifier::rlimit(50)]
#[verifier::spinoff_prover]
proof fn lemma_plan_written<F: Fn(&[u8]) -> bool>(
    judge: F,
    old: OemInfoImage,
    picture: Seq<u8>,
    width: u32,
    height: u32,
    plan: PlanModel,
)
    requires
        old.well_formed(),
        old.is_parse_of(judge, old.bytes()),
        logo::planned(
            old.bytes(),
            old.parsed(),
            old.bank_size(),
            picture,
            width,
            height,
        ) == Ok::<PlanModel, LogoError>(plan),
    ensures
        ({
            let raw = old.bytes();
            let end = plan.target + plan.block.len();
            let written = written_image(raw, plan);
            let new = planned_header(old, plan);
            &&& 0 <= plan.target
            &&& plan.target + 0x200 <= end <= raw.len()
            &&& written.len() == raw.len()
            &&& forall|k: int|
                0 <= k < raw.len() && !(plan.target <= k < end) ==> written[k] == raw[k]
            &&& is_fresh(written, plan.target, end, new)
            &&& is_spared(bank::kept(oeminfo::candidates(raw), 0), plan.target, end)
            &&& plan.age == logo::highest_age(old.parsed()) + 1
            &&& new.age == plan.age
            &&& bank::region_of(new, old.bank_size()) != OemInfoRegion::Unknown
            &&& bank::copy_key(new) == (OEMINFO_BOOT_LOGO_ID, 0u32)
        }),
{
    let raw = old.bytes();
    let blocks = old.parsed();
    let data = lemma_plan_is(raw, blocks, old.bank_size(), picture, width, height, plan);
    let source = logo::chosen(blocks)->Ok_0.0;
    let n = 26 + data.len() as int;
    let end = logo::write_end(blocks, plan.target, n);
    lemma_parsed(judge, old, source);
    logo::lemma_write_end(blocks, plan.target, n);
    let h = blocks[source].header;
    assert(old.headers()[source].fits(raw.len() as int));
    assert(h.length >= 28);
    let image_version = raw.subrange(h.payload_start() + 12, h.payload_start() + 24);
    assert(image_version.len() == 12);
    lemma_written_block(
        raw,
        plan.target,
        h.version as int,
        plan.age,
        image_version,
        data,
        end - plan.target,
    );
    lemma_plan_spares(judge, old, plan.target, n);
    let new = planned_header(old, plan);
    assert(new.end() == plan.target + 0x200 + n);
    lemma_new_region(raw, blocks, old.bank_size(), plan.target, end, new);
}

/// A block for which there is room lies in a bank.
proof fn lemma_new_region(
    raw: Seq<u8>,
    blocks: Seq<ParsedBlock>,
    region_size: int,
    target: int,
    end: int,
    new: BlockHeader,
)
    requires
        raw.len() <= usize::MAX,
        0 <= target,
        logo::has_room(blocks, target, end, region_size, raw.len() as int),
        new.offset == target,
        new.end() <= end,
    ensures
        bank::region_of(new, region_size) != OemInfoRegion::Unknown,
{
}

/// What a plan is made of.
proof fn lemma_plan_is(
    raw: Seq<u8>,
    blocks: Seq<ParsedBlock>,
    region_size: int,
    picture: Seq<u8>,
    width: u32,
    height: u32,
    plan: PlanModel,
) -> (data: Seq<u8>)
    requires
        logo::planned(raw, blocks, region_size, picture, width, height) == Ok::<
            PlanModel,
            LogoError,
        >(plan),
    ensures
        logo::chosen(blocks) is Ok,
        ({
            let (source, spare) = logo::chosen(blocks)->Ok_0;
            let h = blocks[source].header;
            let n = 26 + data.len() as int;
            let end = logo::write_end(blocks, plan.target, n);
            &&& 0 <= source < blocks.len()
            &&& blocks[source].payload.kind.is_image()
            &&& 0 <= plan.target
            &&& plan.payload_len == n
            &&& n <= 0xffff_fff0
            &&& plan.age == logo::highest_age(blocks) + 1
            &&& 0 <= plan.age <= header::OEMINFO_MAX_AGE
            &&& logo::has_room(blocks, plan.target, end, region_size, raw.len() as int)
            &&& logo::is_clear(blocks, plan.target, end)
            &&& plan.block == logo::block_bytes(
                h.version as int,
                plan.age,
                raw.subrange(h.payload_start() + 12, h.payload_start() + 24),
                data,
                end - plan.target,
            )
            &&& match spare {
                Some(s) => 0 <= s < blocks.len() && plan.target == blocks[s].header.offset,
                None => plan.target == h.offset + region_size || plan.target == h.offset
                    - region_size,
            }
        }),
{
    logo::lemma_chosen(blocks);
    let source = logo::chosen(blocks)->Ok_0.0;
    lemma_age_positive(blocks);
    logo::stored_data(blocks[source].payload.kind, picture)->Some_0
}

proof fn lemma_age_positive(blocks: Seq<ParsedBlock>)
    ensures
        logo::highest_age(blocks) >= 0,
    decreases blocks.len(),
{
    if blocks.len() > 0 {
        lemma_age_positive(blocks.drop_last());
    }
}

/// The blocks of an image after a plan was written: block `at` is the new one,
/// and every other one was there before, outside the slot.
pub open spec fn is_renewed(
    old: OemInfoImage,
    image: OemInfoImage,
    plan: PlanModel,
    at: int,
) -> bool {
    let new = planned_header(old, plan);
    &&& 0 <= at < image.parsed().len()
    &&& is_copy_of(image.parsed()[at].header, new)
    &&& forall|k: int|
        0 <= k < image.parsed().len() && k != at ==> was_there(
            old,
            plan,
            #[trigger] image.parsed()[k].header,
        )
    &&& forall|m: int|
        0 <= m < old.parsed().len() && old.parsed()[m].header.offset != plan.target
            ==> #[trigger] is_still_there(image, old.parsed()[m].header)
}

/// True when a block of the image is like `h` in all but how close the next one
/// is.
pub open spec fn is_still_there(image: OemInfoImage, h: BlockHeader) -> bool {
    exists|k: int|
        0 <= k < image.parsed().len() && is_copy_of(#[trigger] image.parsed()[k].header, h)
}

/// True when a header is like another in all but how close the next block is.
pub open spec fn is_copy_of(a: BlockHeader, b: BlockHeader) -> bool {
    &&& a.offset == b.offset
    &&& a.id == b.id
    &&& a.age == b.age
    &&& a.header_size == b.header_size
    &&& a.end() == b.end()
    &&& bank::copy_key(a) == bank::copy_key(b)
}

/// True when the block was one of the image before, outside the slot.
pub open spec fn was_there(old: OemInfoImage, plan: PlanModel, h: BlockHeader) -> bool {
    exists|m: int|
        0 <= m < old.parsed().len() && old.parsed()[m].header.offset != plan.target && is_copy_of(
            h,
            #[trigger] old.parsed()[m].header,
        )
}

/// The blocks of the image before and after, where the old ones are made of
/// `parts`.
#[verifier::rlimit(50)]
#[verifier::spinoff_prover]
proof fn lemma_renewed<F: Fn(&[u8]) -> bool>(
    judge: F,
    old: OemInfoImage,
    image: OemInfoImage,
    plan: PlanModel,
    parts: Parts,
)
    requires
        old.is_parse_of(judge, old.bytes()),
        image.is_parse_of(judge, image.bytes()),
        bank::kept(oeminfo::candidates(old.bytes()), 0) == parts.before + parts.old + parts.behind,
        bank::kept(oeminfo::candidates(image.bytes()), 0) == parts.before + seq![
            planned_header(old, plan),
        ] + parts.behind,
        lie_within(parts.before, 0, plan.target),
        forall|k: int| 0 <= k < parts.old.len() ==> (#[trigger] parts.old[k]).offset == plan.target,
        lie_within(parts.behind, plan.target + 1, old.bytes().len() as int),
    ensures
        is_renewed(old, image, plan, parts.before.len() as int),
{
    let new = planned_header(old, plan);
    let at = parts.before.len() as int;
    let a = bank::kept(oeminfo::candidates(old.bytes()), 0);
    let b = bank::kept(oeminfo::candidates(image.bytes()), 0);
    assert(oeminfo::image_headers(old.bytes()).len() == a.len());
    assert(oeminfo::image_headers(image.bytes()).len() == b.len());
    lemma_parsed(judge, image, at);
    assert(b[at] == new);
    let skip = parts.old.len() - 1;
    assert forall|k: int| 0 <= k < image.parsed().len() && k != at implies was_there(
        old,
        plan,
        #[trigger] image.parsed()[k].header,
    ) by {
        lemma_parsed(judge, image, k);
        let m = if k < at {
            k
        } else {
            k + skip
        };
        lemma_parsed(judge, old, m);
        if k < at {
            assert(b[k] == parts.before[k]);
            assert(a[m] == parts.before[k]);
        } else {
            assert(b[k] == parts.behind[k - at - 1]);
            assert(a[m] == parts.behind[k - at - 1]);
        }
        assert(is_copy_of(image.parsed()[k].header, old.parsed()[m].header));
    }
    assert forall|m: int|
        0 <= m < old.parsed().len() && old.parsed()[m].header.offset
            != plan.target implies #[trigger] is_still_there(image, old.parsed()[m].header) by {
        lemma_parsed(judge, old, m);
        let k = if m < at {
            m
        } else {
            m - skip
        };
        if m < at {
            assert(a[m] == parts.before[m]);
            assert(b[k] == a[m]);
        } else if m < at + parts.old.len() {
            assert(a[m] == parts.old[m - at]);
        } else {
            assert(a[m] == parts.behind[m - at - parts.old.len()]);
            assert(b[k] == a[m]);
        }
        lemma_parsed(judge, image, k);
        assert(is_copy_of(image.parsed()[k].header, old.parsed()[m].header));
    }
}

/// Writing a plan leaves every other block of the image as it was, and adds
/// the new one in its slot.
pub proof fn law_written_image_holds_the_new_block<F: Fn(&[u8]) -> bool>(
    judge: F,
    old: OemInfoImage,
    picture: Seq<u8>,
    width: u32,
    height: u32,
    plan: PlanModel,
    image: OemInfoImage,
)
    requires
        old.well_formed(),
        old.is_parse_of(judge, old.bytes()),
        logo::planned(
            old.bytes(),
            old.parsed(),
            old.bank_size(),
            picture,
            width,
            height,
        ) == Ok::<PlanModel, LogoError>(plan),
        is_parted(
            old.bytes(),
            written_image(old.bytes(), plan),
            plan.target,
            plan.target + plan.block.len(),
        ),
        image.is_parse_of(judge, written_image(old.bytes(), plan)),
    ensures
        exists|at: int| is_renewed(old, image, plan, at),
{
    let raw = old.bytes();
    let end = plan.target + plan.block.len();
    let written = written_image(raw, plan);
    let new = planned_header(old, plan);
    lemma_plan_written(judge, old, picture, width, height, plan);
    let parts = lemma_kept_parts(raw, written, plan.target, end, new);
    assert(lie_within(parts.behind, plan.target + 1, raw.len() as int)) by {
        assert forall|k: int| 0 <= k < parts.behind.len() implies plan.target + 1 <= (
        #[trigger] parts.behind[k]).offset < raw.len() && parts.behind[k].end()
            >= parts.behind[k].offset + 0x40 by {}
    }
    lemma_renewed(judge, old, image, plan, parts);
}

/// A logo of the usual layout is a copy of every other one.
proof fn lemma_logo_key<F: Fn(&[u8]) -> bool>(judge: F, image: OemInfoImage, i: int)
    requires
        image.well_formed(),
        image.is_parse_of(judge, image.bytes()),
        0 <= i < image.parsed().len(),
        image.parsed()[i].header.id == OEMINFO_BOOT_LOGO_ID,
        image.parsed()[i].header.header_size == 0x200,
    ensures
        bank::copy_key(image.parsed()[i].header) == (OEMINFO_BOOT_LOGO_ID, 0u32),
{
    lemma_parsed(judge, image, i);
    assert(image.headers()[i].fits(image.bytes().len() as int));
}

/// A new block in the slot of a spare logo leaves the banks as they are.
#[verifier::rlimit(50)]
#[verifier::spinoff_prover]
proof fn lemma_banks_stay<F: Fn(&[u8]) -> bool>(
    judge: F,
    old: OemInfoImage,
    image: OemInfoImage,
    plan: PlanModel,
    parts: Parts,
    spare: int,
)
    requires
        old.well_formed(),
        old.is_parse_of(judge, old.bytes()),
        image.is_parse_of(judge, image.bytes()),
        image.bytes().len() == old.bytes().len(),
        bank::kept(oeminfo::candidates(old.bytes()), 0) == parts.before + parts.old + parts.behind,
        bank::kept(oeminfo::candidates(image.bytes()), 0) == parts.before + seq![
            planned_header(old, plan),
        ] + parts.behind,
        lie_within(parts.before, 0, plan.target),
        forall|k: int| 0 <= k < parts.old.len() ==> (#[trigger] parts.old[k]).offset == plan.target,
        lie_within(parts.behind, plan.target + 1, old.bytes().len() as int),
        0 <= spare < old.parsed().len(),
        old.parsed()[spare].header.offset == plan.target,
        bank::copy_key(old.parsed()[spare].header) == bank::copy_key(planned_header(old, plan)),
        planned_header(old, plan).offset == plan.target,
    ensures
        image.bank_size() == old.bank_size(),
{
    let new = planned_header(old, plan);
    let at = parts.before.len() as int;
    let a = bank::kept(oeminfo::candidates(old.bytes()), 0);
    let b = bank::kept(oeminfo::candidates(image.bytes()), 0);
    let x = oeminfo::image_headers(old.bytes());
    let y = oeminfo::image_headers(image.bytes());
    lemma_parsed(judge, old, spare);
    assert(at <= spare < at + parts.old.len()) by {
        if spare < at {
            assert(a[spare] == parts.before[spare]);
        } else if spare >= at + parts.old.len() {
            assert(a[spare] == parts.behind[spare - at - parts.old.len()]);
        }
    }
    assert(parts.old.len() == 1) by {
        if parts.old.len() > 1 {
            lemma_parsed(judge, old, at);
            lemma_parsed(judge, old, at + 1);
            assert(a[at] == parts.old[0]);
            assert(a[at + 1] == parts.old[1]);
            assert(old.headers()[at].end() <= old.headers()[at + 1].offset);
            assert(old.headers()[at].fits(old.bytes().len() as int));
        }
    }
    assert(spare == at);
    assert(a.len() == b.len());
    assert forall|k: int| 0 <= k < x.len() implies is_alike(#[trigger] x[k], y[k]) by {
        lemma_compacted_fields(a, k);
        lemma_compacted_fields(b, k);
        if k < at {
            assert(a[k] == parts.before[k]);
            assert(b[k] == parts.before[k]);
        } else if k > at {
            assert(a[k] == parts.behind[k - at - 1]);
            assert(b[k] == parts.behind[k - at - 1]);
        } else {
            assert(b[k] == new);
        }
    }
    lemma_bank_size_same(
        old.bytes().len() as int,
        x,
        y,
        old.bank_size(),
        image.bank_size(),
    );
}

/// A new block in an empty slot leaves the banks as they are.
#[verifier::rlimit(50)]
#[verifier::spinoff_prover]
proof fn lemma_banks_stay_mirrored<F: Fn(&[u8]) -> bool>(
    judge: F,
    old: OemInfoImage,
    image: OemInfoImage,
    plan: PlanModel,
    parts: Parts,
)
    requires
        old.well_formed(),
        old.is_parse_of(judge, old.bytes()),
        image.is_parse_of(judge, image.bytes()),
        image.bytes().len() == old.bytes().len(),
        bank::kept(oeminfo::candidates(old.bytes()), 0) == parts.before + parts.old + parts.behind,
        bank::kept(oeminfo::candidates(image.bytes()), 0) == parts.before + seq![
            planned_header(old, plan),
        ] + parts.behind,
        lie_within(parts.before, 0, plan.target),
        forall|k: int| 0 <= k < parts.old.len() ==> (#[trigger] parts.old[k]).offset == plan.target,
        lie_within(parts.behind, plan.target + 1, old.bytes().len() as int),
        forall|m: int|
            0 <= m < old.parsed().len() ==> (#[trigger] old.parsed()[m]).header.offset
                != plan.target,
        logo::chosen(old.parsed()) is Ok,
        logo::chosen(old.parsed())->Ok_0.1 is None,
        ({
            let source = old.parsed()[logo::chosen(old.parsed())->Ok_0.0].header;
            plan.target == source.offset + old.bank_size() || plan.target == source.offset
                - old.bank_size()
        }),
        planned_header(old, plan).offset == plan.target,
        bank::copy_key(planned_header(old, plan)) == (OEMINFO_BOOT_LOGO_ID, 0u32),
    ensures
        image.bank_size() == old.bank_size(),
{
    let new = planned_header(old, plan);
    let at = parts.before.len() as int;
    let size = old.bank_size();
    let a = bank::kept(oeminfo::candidates(old.bytes()), 0);
    let b = bank::kept(oeminfo::candidates(image.bytes()), 0);
    let source = logo::chosen(old.parsed())->Ok_0.0;
    assert(oeminfo::image_headers(old.bytes()).len() == a.len());
    assert(parts.old.len() == 0) by {
        if parts.old.len() > 0 {
            lemma_parsed(judge, old, at);
            assert(a[at] == parts.old[0]);
        }
    }
    assert(a =~= parts.before + parts.behind);
    assert forall|m: int|
        0 <= m < a.len() && bank::copy_key(#[trigger] a[m]) == bank::copy_key(
            new,
        ) implies a[m].offset == old.parsed()[source].header.offset by {
        lemma_parsed(judge, old, m);
        assert(bank::copy_key(a[m]).0 == a[m].id);
        lemma_logo_listed(old.parsed(), m);
        assert(m == source);
    }
    assert forall|k: int|
        0 <= k < parts.before.len() && bank::copy_key(#[trigger] parts.before[k])
            == bank::copy_key(new) implies new.offset - parts.before[k].offset == size by {
        assert(a[k] == parts.before[k]);
    }
    assert forall|k: int|
        0 <= k < parts.behind.len() && bank::copy_key(#[trigger] parts.behind[k])
            == bank::copy_key(new) implies parts.behind[k].offset - new.offset == size by {
        assert(a[at + k] == parts.behind[k]);
    }
    let file_size = old.bytes().len() as int;
    lemma_compacted_alike(a);
    lemma_compacted_alike(b);
    lemma_distances_same(file_size, bank::compacted(a), a);
    lemma_distances_same(file_size, bank::compacted(b), b);
    lemma_mirror_keeps_banks(
        file_size,
        parts.before,
        new,
        parts.behind,
        size,
        image.bank_size(),
    );
}

/// The logo that is replaced lies in a bank, where there is a spare one.
#[verifier::rlimit(50)]
#[verifier::spinoff_prover]
proof fn lemma_source_in_bank<F: Fn(&[u8]) -> bool>(judge: F, old: OemInfoImage)
    requires
        old.well_formed(),
        old.is_parse_of(judge, old.bytes()),
        logo::chosen(old.parsed()) is Ok,
        logo::chosen(old.parsed())->Ok_0.1 is Some,
    ensures
        bank::region_of(
            old.parsed()[logo::chosen(old.parsed())->Ok_0.0].header,
            old.bank_size(),
        ) != OemInfoRegion::Unknown,
{
    let blocks = old.parsed();
    let headers = oeminfo::image_headers(old.bytes());
    let rs = old.bank_size();
    logo::lemma_logos(blocks);
    let source = logo::chosen(blocks)->Ok_0.0;
    let spare = logo::chosen(blocks)->Ok_0.1->0;
    let list = logo::logos(blocks);
    assert(list.len() == 2);
    assert(0 <= list[0] < blocks.len() && 0 <= list[1] < blocks.len());
    lemma_parsed(judge, old, spare);
    lemma_parsed(judge, old, source);
    lemma_logo_key(judge, old, spare);
    assert(!bank::is_active(headers, rs, spare));
    let j = choose|j: int|
        0 <= j < headers.len() && bank::are_copies(
            headers[spare],
            #[trigger] headers[j],
            rs,
        ) && bank::newer(headers[j], headers[spare]);
    lemma_parsed(judge, old, j);
    assert(blocks[j].header.id == OEMINFO_BOOT_LOGO_ID);
    lemma_logo_listed(blocks, j);
    assert(j != spare);
    assert(j == source);
}

/// Every other logo of a written image is the one that was replaced.
proof fn lemma_other_logo<F: Fn(&[u8]) -> bool>(
    judge: F,
    old: OemInfoImage,
    plan: PlanModel,
    h: BlockHeader,
)
    requires
        old.well_formed(),
        old.is_parse_of(judge, old.bytes()),
        logo::chosen(old.parsed()) is Ok,
        logo::chosen(old.parsed())->Ok_0.1 matches Some(s) ==> old.parsed()[s].header.offset
            == plan.target,
        was_there(old, plan, h),
        h.id == OEMINFO_BOOT_LOGO_ID,
    ensures
        is_copy_of(h, old.parsed()[logo::chosen(old.parsed())->Ok_0.0].header),
        h.age <= logo::highest_age(old.parsed()),
        bank::copy_key(h) == (OEMINFO_BOOT_LOGO_ID, 0u32),
{
    let blocks = old.parsed();
    logo::lemma_logos(blocks);
    logo::lemma_chosen(blocks);
    let source = logo::chosen(blocks)->Ok_0.0;
    let m = choose|m: int|
        0 <= m < blocks.len() && blocks[m].header.offset != plan.target && is_copy_of(
            h,
            #[trigger] blocks[m].header,
        );
    lemma_logo_listed(blocks, m);
    assert(m == source);
    assert(blocks[source].header.header_size == 0x200);
    lemma_logo_key(judge, old, source);
}

/// True when no block starts where the plan writes.
pub open spec fn slot_is_empty(old: OemInfoImage, plan: PlanModel) -> bool {
    forall|m: int|
        0 <= m < old.parsed().len() ==> (#[trigger] old.parsed()[m]).header.offset != plan.target
}

/// After a plan was written, the new block is the active copy of the logo, and
/// the only one. Left out are a single logo that lies in no bank, and one whose
/// new slot holds a block of another kind without which the banks would be
/// taken for larger or smaller.
#[verifier::rlimit(50)]
#[verifier::spinoff_prover]
pub proof fn law_new_logo_is_active<F: Fn(&[u8]) -> bool>(
    judge: F,
    old: OemInfoImage,
    picture: Seq<u8>,
    width: u32,
    height: u32,
    plan: PlanModel,
    image: OemInfoImage,
)
    requires
        old.well_formed(),
        old.is_parse_of(judge, old.bytes()),
        logo::planned(
            old.bytes(),
            old.parsed(),
            old.bank_size(),
            picture,
            width,
            height,
        ) == Ok::<PlanModel, LogoError>(plan),
        is_parted(
            old.bytes(),
            written_image(old.bytes(), plan),
            plan.target,
            plan.target + plan.block.len(),
        ),
        image.is_parse_of(judge, written_image(old.bytes(), plan)),
        image.well_formed(),
        logo::chosen(old.parsed())->Ok_0.1 is None ==> bank::region_of(
            old.parsed()[logo::chosen(old.parsed())->Ok_0.0].header,
            old.bank_size(),
        ) != OemInfoRegion::Unknown && (slot_is_empty(old, plan) || image.bank_size()
            == old.bank_size()),
    ensures
        match logo::active_logo(image.parsed(), 0) {
            Some(k) => {
                &&& image.parsed()[k].header.offset == plan.target
                &&& image.parsed()[k].header.age == plan.age
                &&& forall|j: int|
                    0 <= j < image.parsed().len() && j != k && (
                    #[trigger] image.parsed()[j]).header.id == OEMINFO_BOOT_LOGO_ID
                        ==> !image.parsed()[j].active
            },
            None => false,
        },
{
    let raw = old.bytes();
    let blocks = old.parsed();
    let rs = old.bank_size();
    let end = plan.target + plan.block.len();
    let written = written_image(raw, plan);
    let new = planned_header(old, plan);
    lemma_plan_written(judge, old, picture, width, height, plan);
    let data = lemma_plan_is(raw, blocks, rs, picture, width, height, plan);
    let parts = lemma_kept_parts(raw, written, plan.target, end, new);
    assert(lie_within(parts.behind, plan.target + 1, raw.len() as int)) by {
        assert forall|k: int| 0 <= k < parts.behind.len() implies plan.target + 1 <= (
        #[trigger] parts.behind[k]).offset < raw.len() && parts.behind[k].end()
            >= parts.behind[k].offset + 0x40 by {}
    }
    lemma_renewed(judge, old, image, plan, parts);
    let at = parts.before.len() as int;
    let source = logo::chosen(blocks)->Ok_0.0;
    if let Some(spare) = logo::chosen(blocks)->Ok_0.1 {
        lemma_spare_logo(blocks);
        lemma_logo_key(judge, old, spare);
        lemma_banks_stay(judge, old, image, plan, parts, spare);
        lemma_source_in_bank(judge, old);
    } else if slot_is_empty(old, plan) {
        lemma_banks_stay_mirrored(judge, old, image, plan, parts);
    }
    assert(image.bank_size() == rs);
    lemma_active(judge, old, image, plan, at);
    lemma_first_active(image.parsed(), 0, at);
}

/// The spare logo is a logo of the usual layout.
proof fn lemma_spare_logo(blocks: Seq<ParsedBlock>)
    requires
        logo::chosen(blocks) is Ok,
        logo::chosen(blocks)->Ok_0.1 is Some,
    ensures
        ({
            let spare = logo::chosen(blocks)->Ok_0.1->0;
            &&& 0 <= spare < blocks.len()
            &&& blocks[spare].header.id == OEMINFO_BOOT_LOGO_ID
            &&& blocks[spare].header.header_size == 0x200
        }),
{
    logo::lemma_logos(blocks);
    let list = logo::logos(blocks);
    assert(list.len() == 2);
    assert(0 <= list[0] < blocks.len() && 0 <= list[1] < blocks.len());
}

/// Of the logos of a renewed image the new one alone is active.
#[verifier::rlimit(50)]
#[verifier::spinoff_prover]
proof fn lemma_active<F: Fn(&[u8]) -> bool>(
    judge: F,
    old: OemInfoImage,
    image: OemInfoImage,
    plan: PlanModel,
    at: int,
)
    requires
        old.well_formed(),
        old.is_parse_of(judge, old.bytes()),
        image.is_parse_of(judge, image.bytes()),
        is_renewed(old, image, plan, at),
        image.bank_size() == old.bank_size(),
        logo::chosen(old.parsed()) is Ok,
        logo::chosen(old.parsed())->Ok_0.1 matches Some(s) ==> old.parsed()[s].header.offset
            == plan.target,
        bank::region_of(
            old.parsed()[logo::chosen(old.parsed())->Ok_0.0].header,
            old.bank_size(),
        ) != OemInfoRegion::Unknown,
        bank::region_of(planned_header(old, plan), old.bank_size()) != OemInfoRegion::Unknown,
        bank::copy_key(planned_header(old, plan)) == (OEMINFO_BOOT_LOGO_ID, 0u32),
        planned_header(old, plan).age > logo::highest_age(old.parsed()),
        planned_header(old, plan).id == OEMINFO_BOOT_LOGO_ID,
    ensures
        image.parsed()[at].header.id == OEMINFO_BOOT_LOGO_ID,
        image.parsed()[at].active,
        forall|j: int|
            0 <= j < image.parsed().len() && j != at && (
            #[trigger] image.parsed()[j]).header.id == OEMINFO_BOOT_LOGO_ID
                ==> !image.parsed()[j].active,
{
    let headers = oeminfo::image_headers(image.bytes());
    let rs = image.bank_size();
    lemma_parsed(judge, image, at);
    assert(bank::is_active(headers, rs, at)) by {
        assert forall|j: int|
            0 <= j < headers.len() && bank::are_copies(
                headers[at],
                #[trigger] headers[j],
                rs,
            ) implies !bank::newer(headers[j], headers[at]) by {
            lemma_parsed(judge, image, j);
            if j != at {
                assert(was_there(old, plan, image.parsed()[j].header));
                assert(bank::copy_key(headers[j]).0 == headers[j].id);
                lemma_other_logo(judge, old, plan, image.parsed()[j].header);
            }
        }
    }
    assert forall|j: int|
        0 <= j < image.parsed().len() && j != at && (#[trigger] image.parsed()[j]).header.id
            == OEMINFO_BOOT_LOGO_ID implies !image.parsed()[j].active by {
        lemma_parsed(judge, image, j);
        assert(was_there(old, plan, image.parsed()[j].header));
        lemma_other_logo(judge, old, plan, image.parsed()[j].header);
        assert(bank::are_copies(headers[j], headers[at], rs));
        assert(bank::newer(headers[at], headers[j]));
    }
}

/// The only active logo is the first one.
proof fn lemma_first_active(blocks: Seq<ParsedBlock>, from: int, at: int)
    requires
        0 <= from <= at < blocks.len(),
        blocks[at].header.id == OEMINFO_BOOT_LOGO_ID,
        blocks[at].active,
        forall|j: int|
            0 <= j < blocks.len() && j != at && (#[trigger] blocks[j]).header.id
                == OEMINFO_BOOT_LOGO_ID ==> !blocks[j].active,
    ensures
        logo::active_logo(blocks, from) == Some(at),
    decreases at - from,
{
    if from < at {
        assert(!(blocks[from].header.id == OEMINFO_BOOT_LOGO_ID && blocks[from].active));
        lemma_first_active(blocks, from + 1, at);
    }
}

} // verus!
