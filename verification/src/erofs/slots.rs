//! Where inodes go in the metadata area.

use vstd::prelude::*;

use crate::erofs::layout;
use crate::erofs::layout::EROFS_SLOTSIZE;

verus! {

/// What an inode asks for: room for its body, and for one that ends in inline
/// data also that it crosses no block.
#[derive(Debug, Clone, Copy, PartialEq, Eq, Structural)]
pub struct SlotRequest {
    pub body: u64,
    pub inline: bool,
}

/// The metadata area would be too large.
#[derive(Debug, Clone, Copy, PartialEq, Eq, Structural)]
pub struct SlotOverflow;

impl SlotRequest {
    /// How many bytes are taken: whole slots.
    pub open spec fn size(self) -> int {
        layout::rounded(self.body as int, 32)
    }
}

/// A stretch of the metadata area that was skipped.
pub struct Gap {
    pub length: int,
    pub start: int,
}

/// The metadata area while inodes are placed.
pub struct SlotState {
    pub end: int,
    pub gaps: Seq<Gap>,
    pub offsets: Seq<int>,
}

/// Among the first `n` gaps the smallest that has room, and of several of one
/// length the one that was skipped last.
pub open spec fn best_gap(gaps: Seq<Gap>, size: int, n: int) -> Option<int>
    decreases n,
{
    if n <= 0 {
        None
    } else {
        let before = best_gap(gaps, size, n - 1);
        if gaps[n - 1].length >= size && (before matches Some(i) ==> gaps[n - 1].length
            <= gaps[i].length) {
            Some(n - 1)
        } else {
            before
        }
    }
}

/// The gaps with `size` bytes taken from the front of gap `i`.
pub open spec fn taken(gaps: Seq<Gap>, i: int, size: int) -> Seq<Gap> {
    let gap = gaps[i];
    let rest = gaps.remove(i);
    if gap.length > size {
        rest.push(Gap { length: gap.length - size, start: gap.start + size })
    } else {
        rest
    }
}

/// The area with one more inode placed: in the best gap, or at the end. One
/// that may cross no block starts the next block where it would.
pub open spec fn placed(s: SlotState, r: SlotRequest, block_size: int) -> SlotState {
    let size = r.size();
    match best_gap(s.gaps, size, s.gaps.len() as int) {
        Some(i) => SlotState {
            gaps: taken(s.gaps, i, size),
            offsets: s.offsets.push(s.gaps[i].start),
            ..s
        },
        None => if r.inline && s.end % block_size + size > block_size {
            let next = layout::rounded(s.end, block_size);
            SlotState {
                end: next + size,
                gaps: s.gaps.push(Gap { length: next - s.end, start: s.end }),
                offsets: s.offsets.push(next),
            }
        } else {
            SlotState { end: s.end + size, offsets: s.offsets.push(s.end), ..s }
        },
    }
}

/// The area with the first `n` inodes placed.
pub open spec fn slots(requests: Seq<SlotRequest>, block_size: int, n: int) -> SlotState
    decreases n,
{
    if n <= 0 {
        SlotState { end: 0, gaps: seq![], offsets: seq![] }
    } else {
        placed(slots(requests, block_size, n - 1), requests[n - 1], block_size)
    }
}

// ---------------------------------------------------------------------------
// What every placement keeps
// ---------------------------------------------------------------------------

/// True when two stretches share no byte.
pub open spec fn disjoint(a: int, a_len: int, b: int, b_len: int) -> bool {
    a + a_len <= b || b + b_len <= a
}

/// The gaps lie in the area, each within a block, and share no byte with one
/// another.
pub open spec fn gaps_fit(s: SlotState, block_size: int) -> bool {
    &&& forall|i: int|
        0 <= i < s.gaps.len() ==> {
            let gap = #[trigger] s.gaps[i];
            &&& gap.length >= 0
            &&& gap.length % 32 == 0
            &&& gap.start >= 0
            &&& gap.start % 32 == 0
            &&& gap.start + gap.length <= s.end
            &&& gap.start % block_size + gap.length <= block_size
        }
    &&& forall|i: int, j: int|
        0 <= i < s.gaps.len() && 0 <= j < s.gaps.len() && i != j ==> disjoint(
            (#[trigger] s.gaps[i]).start,
            s.gaps[i].length,
            (#[trigger] s.gaps[j]).start,
            s.gaps[j].length,
        )
}

/// The inodes lie in the area, each at a slot, and share no byte with one
/// another nor with a gap. One that may cross no block does not, where it is
/// not larger than a block.
pub open spec fn inodes_fit(s: SlotState, requests: Seq<SlotRequest>, block_size: int) -> bool {
    &&& forall|i: int|
        0 <= i < s.offsets.len() ==> {
            let offset = #[trigger] s.offsets[i];
            &&& offset >= 0
            &&& offset % 32 == 0
            &&& offset + requests[i].size() <= s.end
            &&& requests[i].inline && requests[i].size() <= block_size ==> offset % block_size
                + requests[i].size() <= block_size
        }
    &&& forall|i: int, j: int|
        0 <= i < s.offsets.len() && 0 <= j < s.offsets.len() && i != j ==> disjoint(
            #[trigger] s.offsets[i],
            requests[i].size(),
            #[trigger] s.offsets[j],
            requests[j].size(),
        )
    &&& forall|i: int, j: int|
        0 <= i < s.offsets.len() && 0 <= j < s.gaps.len() ==> disjoint(
            #[trigger] s.offsets[i],
            requests[i].size(),
            (#[trigger] s.gaps[j]).start,
            s.gaps[j].length,
        )
}

/// True when the area is as a placement leaves it.
pub open spec fn area_fits(s: SlotState, requests: Seq<SlotRequest>, block_size: int) -> bool {
    &&& s.end >= 0
    &&& s.end % 32 == 0
    &&& s.offsets.len() <= requests.len()
    &&& gaps_fit(s, block_size)
    &&& inodes_fit(s, requests, block_size)
}

proof fn lemma_best_gap(gaps: Seq<Gap>, size: int, n: int)
    requires
        0 <= n <= gaps.len(),
    ensures
        match best_gap(gaps, size, n) {
            Some(i) => 0 <= i < n && gaps[i].length >= size,
            None => true,
        },
    decreases n,
{
    if n > 0 {
        lemma_best_gap(gaps, size, n - 1);
    }
}

/// A body takes at least a slot, in whole slots.
proof fn lemma_size(r: SlotRequest)
    requires
        r.body > 0,
    ensures
        r.size() >= 32,
        r.size() % 32 == 0,
        r.body <= r.size() < r.body + 32,
{
    layout::lemma_rounded(r.body as int, 32);
}

/// A position further on in the same block.
proof fn lemma_within_block(start: int, size: int, length: int, block_size: int)
    requires
        0 <= start,
        0 <= size < length,
        start % block_size + length <= block_size,
        block_size > 0,
    ensures
        (start + size) % block_size == start % block_size + size,
{
    vstd::arithmetic::div_mod::lemma_add_mod_noop(start, size, block_size);
    vstd::arithmetic::div_mod::lemma_small_mod(size as nat, block_size as nat);
    vstd::arithmetic::div_mod::lemma_mod_bound(start, block_size);
    vstd::arithmetic::div_mod::lemma_small_mod(
        (start % block_size + size) as nat,
        block_size as nat,
    );
}

proof fn lemma_place_in_gap(
    s: SlotState,
    requests: Seq<SlotRequest>,
    block_size: int,
    i: int,
)
    requires
        area_fits(s, requests, block_size),
        s.offsets.len() < requests.len(),
        requests[s.offsets.len() as int].body > 0,
        block_size > 0,
        0 <= i < s.gaps.len(),
        s.gaps[i].length >= requests[s.offsets.len() as int].size(),
    ensures
        area_fits(
            SlotState {
                gaps: taken(s.gaps, i, requests[s.offsets.len() as int].size()),
                offsets: s.offsets.push(s.gaps[i].start),
                ..s
            },
            requests,
            block_size,
        ),
{
    let n = s.offsets.len() as int;
    let r = requests[n];
    let size = r.size();
    lemma_size(r);
    let gap = s.gaps[i];
    let rest = s.gaps.remove(i);
    let gaps = taken(s.gaps, i, size);
    let next = SlotState { gaps, offsets: s.offsets.push(gap.start), ..s };
    // Each gap that is left lies in one that was there.
    assert forall|k: int| 0 <= k < gaps.len() implies {
        let g = #[trigger] gaps[k];
        let from = if k < rest.len() {
            if k < i {
                k
            } else {
                k + 1
            }
        } else {
            i
        };
        &&& 0 <= from < s.gaps.len()
        &&& s.gaps[from].start <= g.start
        &&& g.start + g.length <= s.gaps[from].start + s.gaps[from].length
        &&& g.length >= 0
        &&& g.length % 32 == 0
        &&& g.start >= 0
        &&& g.start % 32 == 0
        &&& g.start % block_size + g.length <= block_size
        &&& from == i ==> g.start == gap.start + size
    } by {
        let from = if k < rest.len() {
            if k < i {
                k
            } else {
                k + 1
            }
        } else {
            i
        };
        assert(s.gaps[from].length >= 0);
        if k >= rest.len() {
            lemma_within_block(gap.start, size, gap.length, block_size);
        }
    }
    assert(gaps_fit(next, block_size)) by {
        assert forall|a: int, b: int|
            0 <= a < gaps.len() && 0 <= b < gaps.len() && a != b implies disjoint(
            (#[trigger] gaps[a]).start,
            gaps[a].length,
            (#[trigger] gaps[b]).start,
            gaps[b].length,
        ) by {
            let fa = if a < rest.len() {
                if a < i {
                    a
                } else {
                    a + 1
                }
            } else {
                i
            };
            let fb = if b < rest.len() {
                if b < i {
                    b
                } else {
                    b + 1
                }
            } else {
                i
            };
            assert(fa != fb);
            assert(disjoint(
                s.gaps[fa].start,
                s.gaps[fa].length,
                s.gaps[fb].start,
                s.gaps[fb].length,
            ));
        }
        assert forall|k: int| 0 <= k < gaps.len() implies (#[trigger] gaps[k]).start
            + gaps[k].length <= s.end by {
            let from = if k < rest.len() {
                if k < i {
                    k
                } else {
                    k + 1
                }
            } else {
                i
            };
            assert(s.gaps[from].start + s.gaps[from].length <= s.end);
        }
    }
    assert(inodes_fit(next, requests, block_size)) by {
        assert forall|a: int| 0 <= a < next.offsets.len() implies {
            let offset = #[trigger] next.offsets[a];
            &&& offset >= 0
            &&& offset % 32 == 0
            &&& offset + requests[a].size() <= next.end
            &&& requests[a].inline && requests[a].size() <= block_size ==> offset % block_size
                + requests[a].size() <= block_size
        } by {
            if a < n {
                assert(s.offsets[a] == next.offsets[a]);
            }
        }
        assert forall|a: int, b: int|
            0 <= a < next.offsets.len() && 0 <= b < next.offsets.len() && a != b implies disjoint(
            #[trigger] next.offsets[a],
            requests[a].size(),
            #[trigger] next.offsets[b],
            requests[b].size(),
        ) by {
            if a < n && b < n {
                assert(s.offsets[a] == next.offsets[a] && s.offsets[b] == next.offsets[b]);
            } else if a < n {
                assert(s.offsets[a] == next.offsets[a]);
                assert(disjoint(s.offsets[a], requests[a].size(), gap.start, gap.length));
            } else {
                assert(s.offsets[b] == next.offsets[b]);
                assert(disjoint(s.offsets[b], requests[b].size(), gap.start, gap.length));
            }
        }
        assert forall|a: int, b: int|
            0 <= a < next.offsets.len() && 0 <= b < gaps.len() implies disjoint(
            #[trigger] next.offsets[a],
            requests[a].size(),
            (#[trigger] gaps[b]).start,
            gaps[b].length,
        ) by {
            let fb = if b < rest.len() {
                if b < i {
                    b
                } else {
                    b + 1
                }
            } else {
                i
            };
            if a < n {
                assert(s.offsets[a] == next.offsets[a]);
                assert(disjoint(
                    s.offsets[a],
                    requests[a].size(),
                    s.gaps[fb].start,
                    s.gaps[fb].length,
                ));
            } else if fb != i {
                assert(disjoint(gap.start, gap.length, s.gaps[fb].start, s.gaps[fb].length));
            }
        }
    }
}

proof fn lemma_place_at_end(
    s: SlotState,
    requests: Seq<SlotRequest>,
    block_size: int,
    skip: int,
    leaves_gap: bool,
)
    requires
        area_fits(s, requests, block_size),
        s.offsets.len() < requests.len(),
        requests[s.offsets.len() as int].body > 0,
        block_size > 0,
        skip >= 0,
        skip % 32 == 0,
        leaves_gap || skip == 0,
        s.end % block_size + skip <= block_size,
        requests[s.offsets.len() as int].inline && requests[s.offsets.len() as int].size()
            <= block_size ==> (s.end + skip) % block_size + requests[s.offsets.len() as int].size()
            <= block_size,
    ensures
        area_fits(
            SlotState {
                end: s.end + skip + requests[s.offsets.len() as int].size(),
                gaps: if leaves_gap {
                    s.gaps.push(Gap { length: skip, start: s.end })
                } else {
                    s.gaps
                },
                offsets: s.offsets.push(s.end + skip),
            },
            requests,
            block_size,
        ),
{
    let n = s.offsets.len() as int;
    let r = requests[n];
    let size = r.size();
    lemma_size(r);
    let gaps = if leaves_gap {
        s.gaps.push(Gap { length: skip, start: s.end })
    } else {
        s.gaps
    };
    let next = SlotState { end: s.end + skip + size, gaps, offsets: s.offsets.push(s.end + skip) };
    assert(gaps_fit(next, block_size)) by {
        assert forall|k: int| 0 <= k < gaps.len() implies {
            let gap = #[trigger] gaps[k];
            &&& gap.length >= 0
            &&& gap.length % 32 == 0
            &&& gap.start >= 0
            &&& gap.start % 32 == 0
            &&& gap.start + gap.length <= next.end
            &&& gap.start % block_size + gap.length <= block_size
        } by {
            if k < s.gaps.len() {
                assert(s.gaps[k] == gaps[k]);
            }
        }
        assert forall|a: int, b: int|
            0 <= a < gaps.len() && 0 <= b < gaps.len() && a != b implies disjoint(
            (#[trigger] gaps[a]).start,
            gaps[a].length,
            (#[trigger] gaps[b]).start,
            gaps[b].length,
        ) by {
            if a < s.gaps.len() {
                assert(s.gaps[a] == gaps[a]);
            }
            if b < s.gaps.len() {
                assert(s.gaps[b] == gaps[b]);
            }
        }
    }
    assert(inodes_fit(next, requests, block_size)) by {
        assert forall|a: int| 0 <= a < next.offsets.len() implies {
            let offset = #[trigger] next.offsets[a];
            &&& offset >= 0
            &&& offset % 32 == 0
            &&& offset + requests[a].size() <= next.end
            &&& requests[a].inline && requests[a].size() <= block_size ==> offset % block_size
                + requests[a].size() <= block_size
        } by {
            if a < n {
                assert(s.offsets[a] == next.offsets[a]);
            }
        }
        assert forall|a: int, b: int|
            0 <= a < next.offsets.len() && 0 <= b < next.offsets.len() && a != b implies disjoint(
            #[trigger] next.offsets[a],
            requests[a].size(),
            #[trigger] next.offsets[b],
            requests[b].size(),
        ) by {
            if a < n {
                assert(s.offsets[a] == next.offsets[a]);
            }
            if b < n {
                assert(s.offsets[b] == next.offsets[b]);
            }
        }
        assert forall|a: int, b: int|
            0 <= a < next.offsets.len() && 0 <= b < gaps.len() implies disjoint(
            #[trigger] next.offsets[a],
            requests[a].size(),
            (#[trigger] gaps[b]).start,
            gaps[b].length,
        ) by {
            if a < n {
                assert(s.offsets[a] == next.offsets[a]);
            }
            if b < s.gaps.len() {
                assert(s.gaps[b] == gaps[b]);
            }
        }
    }
}

proof fn lemma_placed(s: SlotState, requests: Seq<SlotRequest>, block_size: int)
    requires
        area_fits(s, requests, block_size),
        s.offsets.len() < requests.len(),
        requests[s.offsets.len() as int].body > 0,
        block_size > 0,
        block_size % 32 == 0,
    ensures
        area_fits(placed(s, requests[s.offsets.len() as int], block_size), requests, block_size),
        placed(s, requests[s.offsets.len() as int], block_size).end >= s.end,
        placed(s, requests[s.offsets.len() as int], block_size).offsets.len() == s.offsets.len()
            + 1,
{
    let r = requests[s.offsets.len() as int];
    let size = r.size();
    lemma_size(r);
    lemma_best_gap(s.gaps, size, s.gaps.len() as int);
    match best_gap(s.gaps, size, s.gaps.len() as int) {
        Some(i) => {
            lemma_place_in_gap(s, requests, block_size, i);
        },
        None => {
            vstd::arithmetic::div_mod::lemma_mod_bound(s.end, block_size);
            if r.inline && s.end % block_size + size > block_size {
                layout::lemma_rounded(s.end, block_size);
                let next = layout::rounded(s.end, block_size);
                let skip = next - s.end;
                lemma_skip(s.end, block_size);
                lemma_place_at_end(s, requests, block_size, skip, true);
            } else {
                lemma_place_at_end(s, requests, block_size, 0, false);
            }
        },
    }
}

/// What is skipped up to the next block.
proof fn lemma_skip(end: int, block_size: int)
    requires
        0 <= end,
        block_size > 0,
        block_size % 32 == 0,
        end % 32 == 0,
    ensures
        ({
            let skip = layout::rounded(end, block_size) - end;
            &&& 0 <= skip < block_size
            &&& skip % 32 == 0
            &&& end % block_size + skip <= block_size
            &&& end % block_size != 0 ==> skip == block_size - end % block_size
            &&& end % block_size == 0 ==> skip == 0
        }),
{
    layout::lemma_rounded(end, block_size);
    let up = layout::rounded(end, block_size);
    let skip = up - end;
    vstd::arithmetic::div_mod::lemma_fundamental_div_mod(end, block_size);
    vstd::arithmetic::div_mod::lemma_fundamental_div_mod(up, block_size);
    vstd::arithmetic::div_mod::lemma_mod_bound(end, block_size);
    let a = end / block_size;
    let b = up / block_size;
    let r = end % block_size;
    assert(block_size * b == block_size * a + r + skip);
    if r != 0 {
        assert(b == a + 1) by (nonlinear_arith)
            requires
                block_size * b == block_size * a + r + skip,
                0 < r < block_size,
                0 <= skip < block_size,
                block_size > 0,
        ;
        assert(block_size * (a + 1) == block_size * a + block_size) by (nonlinear_arith);
    }
    assert(r % 32 == 0) by {
        vstd::arithmetic::div_mod::lemma_fundamental_div_mod(block_size, 32);
        let q = block_size / 32;
        assert(block_size * a == 32 * (q * a)) by (nonlinear_arith)
            requires
                block_size == 32 * q,
        ;
        assert(end == 32 * (q * a) + r);
    }
}

/// The area of the first inodes fits.
proof fn lemma_slots(requests: Seq<SlotRequest>, block_size: int, n: int)
    requires
        0 <= n <= requests.len(),
        block_size > 0,
        block_size % 32 == 0,
        forall|i: int| 0 <= i < requests.len() ==> (#[trigger] requests[i]).body > 0,
    ensures
        area_fits(slots(requests, block_size, n), requests, block_size),
        slots(requests, block_size, n).offsets.len() == n,
    decreases n,
{
    if n > 0 {
        lemma_slots(requests, block_size, n - 1);
        lemma_placed(slots(requests, block_size, n - 1), requests, block_size);
    }
}

/// Inodes never share a byte: each has its own slots within the area, and the
/// body of one that ends in inline data lies within a block.
pub proof fn law_inodes_have_their_own_slots(requests: Seq<SlotRequest>, block_size: int)
    requires
        block_size > 0,
        block_size % 32 == 0,
        forall|i: int| 0 <= i < requests.len() ==> (#[trigger] requests[i]).body > 0,
    ensures
        ({
            let s = slots(requests, block_size, requests.len() as int);
            &&& s.offsets.len() == requests.len()
            &&& forall|i: int|
                0 <= i < requests.len() ==> {
                    let offset = #[trigger] s.offsets[i];
                    &&& 0 <= offset
                    &&& offset % 32 == 0
                    &&& offset + requests[i].body <= s.end
                    &&& requests[i].inline && requests[i].body <= block_size ==> offset % block_size
                        + requests[i].body <= block_size
                }
            &&& forall|i: int, j: int|
                0 <= i < requests.len() && 0 <= j < requests.len() && i != j ==> disjoint(
                    #[trigger] s.offsets[i],
                    requests[i].body as int,
                    #[trigger] s.offsets[j],
                    requests[j].body as int,
                )
        }),
{
    let n = requests.len() as int;
    lemma_slots(requests, block_size, n);
    let s = slots(requests, block_size, n);
    assert forall|i: int| 0 <= i < n implies {
        let offset = #[trigger] s.offsets[i];
        &&& 0 <= offset
        &&& offset % 32 == 0
        &&& offset + requests[i].body <= s.end
        &&& requests[i].inline && requests[i].body <= block_size ==> offset % block_size
            + requests[i].body <= block_size
    } by {
        lemma_size(requests[i]);
        if requests[i].body <= block_size {
            lemma_size_in_block(requests[i], block_size);
        }
    }
    assert forall|i: int, j: int| 0 <= i < n && 0 <= j < n && i != j implies disjoint(
        #[trigger] s.offsets[i],
        requests[i].body as int,
        #[trigger] s.offsets[j],
        requests[j].body as int,
    ) by {
        lemma_size(requests[i]);
        lemma_size(requests[j]);
    }
}

/// A body that fits in a block still does in whole slots.
proof fn lemma_size_in_block(r: SlotRequest, block_size: int)
    requires
        0 < r.body <= block_size,
        block_size % 32 == 0,
    ensures
        r.size() <= block_size,
{
    lemma_size(r);
}

// ---------------------------------------------------------------------------
// Placing
// ---------------------------------------------------------------------------

/// A skipped stretch: its length and its start.
struct Skipped {
    length: u64,
    start: u64,
}

spec fn gaps_of(list: Seq<Skipped>) -> Seq<Gap> {
    list.map_values(|g: Skipped| Gap { length: g.length as int, start: g.start as int })
}

fn find_gap(gaps: &Vec<Skipped>, size: u64) -> (found: Option<usize>)
    ensures
        match found {
            Some(i) => best_gap(gaps_of(gaps@), size as int, gaps@.len() as int) == Some(i as int)
                && i < gaps@.len() && gaps@[i as int].length >= size,
            None => best_gap(gaps_of(gaps@), size as int, gaps@.len() as int) is None,
        },
{
    let ghost all = gaps_of(gaps@);
    let mut best: Option<usize> = None;
    let mut n: usize = 0;
    while n < gaps.len()
        invariant
            n <= gaps@.len(),
            all == gaps_of(gaps@),
            match best {
                Some(i) => best_gap(all, size as int, n as int) == Some(i as int) && i < n
                    && gaps@[i as int].length >= size,
                None => best_gap(all, size as int, n as int) is None,
            },
        decreases gaps@.len() - n,
    {
        assert(all[n as int].length == gaps@[n as int].length);
        let length: u64 = gaps[n].length;
        if length >= size {
            match best {
                Some(i) => {
                    assert(all[i as int].length == gaps@[i as int].length);
                    if length <= gaps[i].length {
                        best = Some(n);
                    }
                },
                None => {
                    best = Some(n);
                },
            }
        }
        n += 1;
    }
    best
}

/// Places inodes one after the other. Gives the offset of each in the metadata
/// area, and the end of the area.
pub fn assign_slots(requests: &Vec<SlotRequest>, block_size: u64) -> (assigned: Result<
    (Vec<u64>, u64),
    SlotOverflow,
>)
    requires
        0 < block_size <= 0x1_0000_0000,
        block_size % 32 == 0,
        forall|i: int| 0 <= i < requests@.len() ==> (#[trigger] requests@[i]).body > 0,
    ensures
        ({
            let s = slots(requests@, block_size as int, requests@.len() as int);
            match assigned {
                Ok((offsets, end)) => {
                    &&& offsets@.map_values(|o: u64| o as int) == s.offsets
                    &&& end == s.end
                },
                Err(_) => exists|n: int|
                    0 <= n < requests@.len() && #[trigger] slots(
                        requests@,
                        block_size as int,
                        n,
                    ).end + requests@[n].size() + 2 * block_size > u64::MAX,
            }
        }),
{
    let mut end: u64 = 0;
    let mut gaps: Vec<Skipped> = Vec::new();
    let mut offsets: Vec<u64> = Vec::new();
    let mut n: usize = 0;
    let ghost start = slots(requests@, block_size as int, 0);
    assert(gaps_of(gaps@) =~= start.gaps);
    assert(offsets@.map_values(|o: u64| o as int) =~= start.offsets);
    while n < requests.len()
        invariant
            n <= requests@.len(),
            0 < block_size <= 0x1_0000_0000,
            block_size % 32 == 0,
            forall|i: int| 0 <= i < requests@.len() ==> (#[trigger] requests@[i]).body > 0,
            end == slots(requests@, block_size as int, n as int).end,
            gaps_of(gaps@) == slots(requests@, block_size as int, n as int).gaps,
            offsets@.map_values(|o: u64| o as int) == slots(
                requests@,
                block_size as int,
                n as int,
            ).offsets,
        decreases requests@.len() - n,
    {
        let ghost before = slots(requests@, block_size as int, n as int);
        let ghost after = slots(requests@, block_size as int, n + 1);
        proof {
            lemma_slots(requests@, block_size as int, n as int);
        }
        let r = requests[n];
        proof {
            lemma_size(r);
        }
        if r.body > u64::MAX - 32 {
            return Err(SlotOverflow);
        }
        let size: u64 = layout::round_up(r.body, EROFS_SLOTSIZE);
        if end > u64::MAX - block_size || end > u64::MAX - 2 * block_size || size > u64::MAX - 2
            * block_size - end {
            return Err(SlotOverflow);
        }
        let offset: u64;
        match find_gap(&gaps, size) {
            Some(i) => {
                let ghost all = gaps_of(gaps@);
                assert(all[i as int] == (Gap {
                    length: gaps@[i as int].length as int,
                    start: gaps@[i as int].start as int,
                }));
                assert(before.gaps[i as int].start + before.gaps[i as int].length <= before.end);
                let gap = gaps.remove(i);
                assert(gaps_of(gaps@) =~= all.remove(i as int));
                if gap.length > size {
                    let ghost rest = gaps_of(gaps@);
                    gaps.push(Skipped { length: gap.length - size, start: gap.start + size });
                    assert(gaps_of(gaps@) =~= rest.push(
                        Gap { length: gap.length - size, start: gap.start + size },
                    ));
                }
                offset = gap.start;
            },
            None => {
                if r.inline && end % block_size + size > block_size {
                    let next: u64 = layout::round_up(end, block_size);
                    let ghost all = gaps_of(gaps@);
                    gaps.push(Skipped { length: next - end, start: end });
                    assert(gaps_of(gaps@) =~= all.push(Gap { length: next - end, start: end as int }));
                    end = next;
                }
                offset = end;
                end = end + size;
            },
        }
        let ghost list = offsets@.map_values(|o: u64| o as int);
        offsets.push(offset);
        assert(offsets@.map_values(|o: u64| o as int) =~= list.push(offset as int));
        n += 1;
    }
    Ok((offsets, end))
}

/// An inode goes to the smallest gap that has room for it, and of several alike to
/// the one that was skipped last.
pub proof fn law_gaps_are_filled_best(gaps: Seq<Gap>, size: int, n: int)
    requires
        0 <= n <= gaps.len(),
    ensures
        match best_gap(gaps, size, n) {
            Some(i) => {
                &&& 0 <= i < n && gaps[i].length >= size
                &&& forall|k: int|
                    0 <= k < n && (#[trigger] gaps[k]).length >= size ==> gaps[k].length
                        > gaps[i].length || (gaps[k].length == gaps[i].length && k <= i)
            },
            None => forall|k: int| 0 <= k < n ==> (#[trigger] gaps[k]).length < size,
        },
    decreases n,
{
    if n > 0 {
        law_gaps_are_filled_best(gaps, size, n - 1);
    }
}

/// Inodes take whole units of 32 bytes. One that finds no gap goes to the end of the
/// area, or to the next block where it may not cross one and would.
pub proof fn law_inodes_go_to_the_end(s: SlotState, r: SlotRequest, block_size: int)
    requires
        s.end >= 0,
        block_size > 0,
        best_gap(s.gaps, r.size(), s.gaps.len() as int) is None,
    ensures
        ({
            let after = placed(s, r, block_size);
            let size = (r.body + 31) / 32 * 32;
            let crosses = r.inline && s.end % block_size + size > block_size;
            let next = (s.end + block_size - 1) / block_size * block_size;
            &&& after.offsets == s.offsets.push(if crosses {
                next
            } else {
                s.end
            })
            &&& after.end == (if crosses {
                next
            } else {
                s.end
            }) + size
            &&& crosses ==> after.gaps.len() == s.gaps.len() + 1 && after.gaps.last().start == s.end
                && after.gaps.last().length == next - s.end
            &&& !crosses ==> after.gaps == s.gaps
        }),
{
}

/// One that finds a gap goes to its start, and what is left of the gap stays one.
pub proof fn law_gaps_are_used_from_their_start(s: SlotState, r: SlotRequest, block_size: int, i: int)
    requires
        best_gap(s.gaps, r.size(), s.gaps.len() as int) == Some(i),
        0 <= i < s.gaps.len(),
    ensures
        ({
            let after = placed(s, r, block_size);
            let size = (r.body + 31) / 32 * 32;
            let gap = s.gaps[i];
            &&& after.offsets == s.offsets.push(gap.start) && after.end == s.end
            &&& gap.length == size ==> after.gaps == s.gaps.remove(i)
            &&& gap.length > size ==> after.gaps == s.gaps.remove(i).push(
                Gap { length: gap.length - size, start: gap.start + size },
            )
        }),
{
    law_gaps_are_filled_best(s.gaps, r.size(), s.gaps.len() as int);
}

} // verus!
