//! Summaries of OEMINFO images, and the identity and versions they record.

use vstd::prelude::*;

use crate::oeminfo::bank::OemInfoRegion;
use crate::oeminfo::header::OemInfoLayout;
use crate::oeminfo::payload;
use crate::oeminfo::{
    OemInfoBlockSummary, OemInfoError, OemInfoImage, OemInfoImageSummary, ParsedBlock,
};
use crate::text;

verus! {

/// True when `s` repeats what is known of a block.
pub open spec fn summarizes(b: ParsedBlock, s: OemInfoBlockSummary) -> bool {
    &&& s.offset == b.header.offset
    &&& s.version == b.header.version
    &&& s.id == b.header.id
    &&& s.sub_id == b.header.sub_id
    &&& s.length == b.header.length
    &&& s.age == b.header.age
    &&& s.header_size == b.header.header_size
    &&& s.layout == b.header.layout
    &&& s.region == b.region
    &&& s.active == b.active
    &&& s.payload_kind == b.payload.kind
    &&& payload::text_of(s.text_preview) == payload::text_of(b.payload.text_preview)
    &&& s.tlv_parts == b.payload.tlv_parts
    &&& payload::text_of(s.tlv_description) == payload::text_of(b.payload.tlv_description)
    &&& payload::text_of(s.image_version_hex) == payload::text_of(b.payload.image_version_hex)
    &&& s.image_random_adjust == b.payload.image_random_adjust
    &&& s.header_padding_byte == b.header.header_padding_byte
    &&& s.block_padding_byte == b.block_padding_byte
}

pub fn copy_text(value: &Option<String>) -> (copy: Option<String>)
    ensures
        payload::text_of(copy) == payload::text_of(*value),
{
    match value {
        Some(found) => Some(found.clone()),
        None => None,
    }
}

impl ParsedBlock {
    pub fn summary(&self) -> (s: OemInfoBlockSummary)
        requires
            self.header.header_size <= 0x200,
        ensures
            summarizes(*self, s),
    {
        OemInfoBlockSummary {
            offset: self.header.offset as u64,
            version: self.header.version,
            id: self.header.id,
            sub_id: self.header.sub_id,
            length: self.header.length,
            age: self.header.age,
            header_size: self.header.header_size as u32,
            layout: self.header.layout,
            region: self.region,
            active: self.active,
            payload_kind: self.payload.kind,
            text_preview: copy_text(&self.payload.text_preview),
            tlv_parts: self.payload.tlv_parts,
            tlv_description: copy_text(&self.payload.tlv_description),
            image_version_hex: copy_text(&self.payload.image_version_hex),
            image_random_adjust: self.payload.image_random_adjust,
            header_padding_byte: self.header.header_padding_byte,
            block_padding_byte: self.block_padding_byte,
        }
    }
}

/// How many blocks are as `p` says.
pub open spec fn count(blocks: Seq<ParsedBlock>, p: spec_fn(ParsedBlock) -> bool) -> nat
    decreases blocks.len(),
{
    if blocks.len() == 0 {
        0
    } else {
        count(blocks.drop_last(), p) + if p(blocks.last()) {
            1nat
        } else {
            0nat
        }
    }
}

/// How many blocks are active.
pub open spec fn active_count(blocks: Seq<ParsedBlock>) -> nat {
    count(blocks, |b: ParsedBlock| b.active)
}

/// How many blocks lie in a region.
pub open spec fn region_count(blocks: Seq<ParsedBlock>, region: OemInfoRegion) -> nat {
    count(blocks, |b: ParsedBlock| b.region == region)
}

/// How many blocks have a layout.
pub open spec fn layout_count(blocks: Seq<ParsedBlock>, layout: OemInfoLayout) -> nat {
    count(blocks, |b: ParsedBlock| b.header.layout == layout)
}

/// True when `s` is the summary of the image.
pub open spec fn is_summary(image: OemInfoImage, s: OemInfoImageSummary) -> bool {
    let blocks = image.parsed();
    &&& s.file_size == image.bytes().len()
    &&& s.region_size == image.bank_size()
    &&& s.candidate_headers == image.candidate_count()
    &&& s.discarded_headers == image.discarded_count()
    &&& s.total_blocks == blocks.len()
    &&& s.active_blocks == active_count(blocks)
    &&& s.inactive_blocks == blocks.len() - active_count(blocks)
    &&& s.region_a_blocks == region_count(blocks, OemInfoRegion::A)
    &&& s.region_b_blocks == region_count(blocks, OemInfoRegion::B)
    &&& s.unknown_region_blocks == region_count(blocks, OemInfoRegion::Unknown)
    &&& s.standard_blocks == layout_count(blocks, OemInfoLayout::Standard)
    &&& s.compact_blocks == layout_count(blocks, OemInfoLayout::StandardCompact)
    &&& s.reused_blocks == layout_count(blocks, OemInfoLayout::Reused)
    &&& s.blocks@.len() == blocks.len()
    &&& forall|i: int| 0 <= i < blocks.len() ==> summarizes(blocks[i], #[trigger] s.blocks@[i])
}

/// The regions share out the blocks, and so do the layouts.
pub proof fn law_counts_add_up(blocks: Seq<ParsedBlock>)
    ensures
        region_count(blocks, OemInfoRegion::A) + region_count(blocks, OemInfoRegion::B)
            + region_count(blocks, OemInfoRegion::Unknown) == blocks.len(),
        layout_count(blocks, OemInfoLayout::Standard) + layout_count(
            blocks,
            OemInfoLayout::StandardCompact,
        ) + layout_count(blocks, OemInfoLayout::Reused) == blocks.len(),
        active_count(blocks) <= blocks.len(),
    decreases blocks.len(),
{
    if blocks.len() > 0 {
        law_counts_add_up(blocks.drop_last());
    }
}

impl OemInfoImage {
    pub fn summary(&self) -> (s: OemInfoImageSummary)
        requires
            self.well_formed(),
        ensures
            is_summary(*self, s),
    {
        let ghost all = self.parsed();
        let mut blocks: Vec<OemInfoBlockSummary> = Vec::new();
        let mut active: usize = 0;
        let mut in_a: usize = 0;
        let mut in_b: usize = 0;
        let mut elsewhere: usize = 0;
        let mut standard: usize = 0;
        let mut compact: usize = 0;
        let mut reused: usize = 0;
        let mut i: usize = 0;
        while i < self.blocks.len()
            invariant
                self.well_formed(),
                all == self.blocks@,
                all == self.parsed(),
                i <= all.len(),
                blocks@.len() == i,
                active == active_count(all.take(i as int)),
                in_a == region_count(all.take(i as int), OemInfoRegion::A),
                in_b == region_count(all.take(i as int), OemInfoRegion::B),
                elsewhere == region_count(all.take(i as int), OemInfoRegion::Unknown),
                standard == layout_count(all.take(i as int), OemInfoLayout::Standard),
                compact == layout_count(all.take(i as int), OemInfoLayout::StandardCompact),
                reused == layout_count(all.take(i as int), OemInfoLayout::Reused),
                active <= i,
                in_a <= i,
                in_b <= i,
                elsewhere <= i,
                standard <= i,
                compact <= i,
                reused <= i,
                forall|k: int| 0 <= k < i ==> summarizes(all[k], #[trigger] blocks@[k]),
            decreases all.len() - i,
        {
            let block = &self.blocks[i];
            assert(self.headers()[i as int] == block.header);
            assert(self.headers()[i as int].fits(self.bytes().len() as int));
            blocks.push(block.summary());
            if block.active {
                active += 1;
            }
            match block.region {
                OemInfoRegion::A => in_a += 1,
                OemInfoRegion::B => in_b += 1,
                OemInfoRegion::Unknown => elsewhere += 1,
            }
            match block.header.layout {
                OemInfoLayout::Standard => standard += 1,
                OemInfoLayout::StandardCompact => compact += 1,
                OemInfoLayout::Reused => reused += 1,
            }
            i += 1;
            assert(all.take(i as int).drop_last() =~= all.take(i - 1));
        }
        assert(all.take(i as int) =~= all);
        OemInfoImageSummary {
            file_size: self.raw.len() as u64,
            region_size: self.region_size as u64,
            candidate_headers: self.candidate_headers,
            discarded_headers: self.discarded_headers,
            total_blocks: blocks.len(),
            active_blocks: active,
            inactive_blocks: blocks.len() - active,
            region_a_blocks: in_a,
            region_b_blocks: in_b,
            unknown_region_blocks: elsewhere,
            standard_blocks: standard,
            compact_blocks: compact,
            reused_blocks: reused,
            blocks,
        }
    }
}

/// True when `s` is the summary of a parse of `raw`.
pub open spec fn summarizes_bytes<F: Fn(&[u8]) -> bool>(
    judge: F,
    raw: Seq<u8>,
    s: OemInfoImageSummary,
) -> bool {
    exists|image: OemInfoImage|
        {
            &&& #[trigger] is_summary(image, s)
            &&& image.is_parse_of(judge, raw)
        }
}

/// Parses an image and summarizes it.
pub fn inspect<F: Fn(&[u8]) -> bool>(raw: Vec<u8>, high_entropy: &F) -> (summary: Result<
    OemInfoImageSummary,
    OemInfoError,
>)
    requires
        forall|slice: &[u8]| call_requires(*high_entropy, (slice,)),
    ensures
        match summary {
            Ok(s) => raw@.len() >= 0x40 && crate::oeminfo::candidates(raw@).len() > 0
                && summarizes_bytes(*high_entropy, raw@, s),
            Err(OemInfoError::TooSmall) => raw@.len() < 0x40,
            Err(OemInfoError::NoBlocks) => raw@.len() >= 0x40 && crate::oeminfo::candidates(
                raw@,
            ).len() == 0,
        },
{
    let ghost bytes = raw@;
    match OemInfoImage::from_bytes(raw, high_entropy) {
        Ok(image) => {
            assert(image.is_parse_of(*high_entropy, bytes));
            let s = image.summary();
            assert(summarizes_bytes(*high_entropy, bytes, s)) by {
                assert(is_summary(image, s));
            }
            Ok(s)
        },
        Err(error) => Err(error),
    }
}

// ---------------------------------------------------------------------------
// Overview
// ---------------------------------------------------------------------------

#[derive(Debug, Clone, PartialEq, Eq)]
pub struct OemInfoOverview {
    pub base_version: Option<String>,
    pub full_version: Option<String>,
    pub product_model: Option<String>,
    pub cust_version: Option<String>,
    pub preload_version: Option<String>,
    pub base_component: Option<String>,
    pub device_certificate: Option<bool>,
    pub other_versions: Vec<(u32, u32, String)>,
}

/// The values of an overview, with texts as character sequences.
#[verifier::ext_equal]
pub struct OverviewModel {
    pub base_version: Option<Seq<char>>,
    pub full_version: Option<Seq<char>>,
    pub product_model: Option<Seq<char>>,
    pub cust_version: Option<Seq<char>>,
    pub preload_version: Option<Seq<char>>,
    pub base_component: Option<Seq<char>>,
    pub device_certificate: Option<bool>,
    pub other_versions: Seq<(u32, u32, Seq<char>)>,
}

impl View for OemInfoOverview {
    type V = OverviewModel;

    open spec fn view(&self) -> OverviewModel {
        OverviewModel {
            base_version: payload::text_of(self.base_version),
            full_version: payload::text_of(self.full_version),
            product_model: payload::text_of(self.product_model),
            cust_version: payload::text_of(self.cust_version),
            preload_version: payload::text_of(self.preload_version),
            base_component: payload::text_of(self.base_component),
            device_certificate: self.device_certificate,
            other_versions: self.other_versions@.map_values(
                |v: (u32, u32, String)| (v.0, v.1, v.2@),
            ),
        }
    }
}

/// An overview of nothing.
pub open spec fn empty_overview() -> OverviewModel {
    OverviewModel {
        base_version: None,
        full_version: None,
        product_model: None,
        cust_version: None,
        preload_version: None,
        base_component: None,
        device_certificate: None,
        other_versions: seq![],
    }
}

impl Default for OemInfoOverview {
    fn default() -> (overview: OemInfoOverview)
        ensures
            overview@ == empty_overview(),
    {
        let overview = OemInfoOverview {
            base_version: None,
            full_version: None,
            product_model: None,
            cust_version: None,
            preload_version: None,
            base_component: None,
            device_certificate: None,
            other_versions: Vec::new(),
        };
        assert(overview@ =~= empty_overview());
        overview
    }
}

/// The first place from `from` on where an escape stands, or the length.
pub open spec fn escape_position(s: Seq<char>, from: int) -> int
    decreases s.len() - from,
{
    if from < 0 || from + 1 >= s.len() {
        s.len() as int
    } else if s[from] == '\\' && s[from + 1] == 'x' {
        from
    } else {
        escape_position(s, from + 1)
    }
}

/// The text of a preview: what stands before the first escape, trimmed. Gives
/// nothing where that is empty.
pub open spec fn usable_text(preview: Option<Seq<char>>) -> Option<Seq<char>> {
    match preview {
        Some(s) => {
            let t = text::trimmed(s.take(escape_position(s, 0)));
            if t.len() > 0 {
                Some(t)
            } else {
                None
            }
        },
        None => None,
    }
}

fn read_text(preview: &Option<String>) -> (usable: Option<Vec<char>>)
    ensures
        match usable {
            Some(found) => usable_text(payload::text_of(*preview)) == Some(found@),
            None => usable_text(payload::text_of(*preview)) is None,
        },
{
    match preview {
        None => None,
        Some(found) => {
            let chars = text::chars_of(found.as_str());
            let mut at: usize = 0;
            while at < chars.len() && at + 1 < chars.len() && !(chars[at] == '\\' && chars[at + 1]
                == 'x')
                invariant
                    at <= chars@.len(),
                    escape_position(chars@, 0) == escape_position(chars@, at as int),
                decreases chars@.len() - at,
            {
                at += 1;
            }
            let end: usize = if at < chars.len() && chars.len() - at > 1 {
                at
            } else {
                chars.len()
            };
            let trimmed = text::trim(&chars.as_slice()[0..end]);
            if trimmed.len() > 0 {
                Some(text::copy_chars(trimmed))
            } else {
                None
            }
        },
    }
}

/// The characters that part the words of a version text.
pub open spec fn is_separator(c: char) -> bool {
    c == '(' || c == ')' || c == ' ' || c == ';' || c == '|' || c == ','
}

/// `s` with every separator made a blank.
pub open spec fn blanked(s: Seq<char>) -> Seq<char> {
    s.map_values(
        |c: char|
            if is_separator(c) {
                ' '
            } else {
                c
            },
    )
}

/// Two numbers or more with dots between them.
pub open spec fn is_dotted_number(s: Seq<char>) -> bool {
    let parts = text::split(s, '.');
    parts.len() >= 2 && forall|i: int|
        0 <= i < parts.len() ==> text::all_digits(#[trigger] parts[i], 10)
}

/// Three to sixty-four printable ASCII characters with a dotted number among
/// their words.
pub open spec fn is_version(s: Seq<char>) -> bool {
    let t = text::trimmed(s);
    let words = text::split(blanked(t), ' ');
    &&& 3 <= t.len() <= 64
    &&& forall|i: int| 0 <= i < t.len() ==> ' ' <= #[trigger] t[i] <= '~'
    &&& exists|i: int| 0 <= i < words.len() && is_dotted_number(#[trigger] words[i])
}

fn digits_only(s: &[char]) -> (is: bool)
    ensures
        is == text::all_digits(s@, 10),
{
    let mut i: usize = 0;
    while i < s.len()
        invariant
            i <= s@.len(),
            forall|k: int| 0 <= k < i ==> text::is_digit_in(#[trigger] s@[k], 10),
        decreases s@.len() - i,
    {
        if text::digit_in(s[i], 10).is_none() {
            return false;
        }
        i += 1;
    }
    s.len() > 0
}

fn dotted_number(s: &[char]) -> (is: bool)
    ensures
        is == is_dotted_number(s@),
{
    let parts = text::split_char(s, '.');
    let ghost all = text::split(s@, '.');
    let mut i: usize = 0;
    while i < parts.len()
        invariant
            i <= parts@.len(),
            all == text::split(s@, '.'),
            text::pieces(parts@) == all,
            forall|k: int| 0 <= k < i ==> text::all_digits(#[trigger] all[k], 10),
        decreases parts@.len() - i,
    {
        assert(all[i as int] == parts@[i as int]@);
        if !digits_only(parts[i].as_slice()) {
            return false;
        }
        i += 1;
    }
    parts.len() >= 2
}

pub fn looks_like_version(s: &[char]) -> (is: bool)
    ensures
        is == is_version(s@),
{
    let t = text::trim(s);
    if t.len() < 3 || t.len() > 64 {
        return false;
    }
    let mut blank: Vec<char> = Vec::new();
    let mut i: usize = 0;
    while i < t.len()
        invariant
            i <= t@.len(),
            t@ == text::trimmed(s@),
            blank@ == blanked(t@.take(i as int)),
            forall|k: int| 0 <= k < i ==> ' ' <= #[trigger] t@[k] <= '~',
        decreases t@.len() - i,
    {
        let c: char = t[i];
        if !(' ' <= c && c <= '~') {
            assert(!(' ' <= t@[i as int] <= '~'));
            return false;
        }
        if c == '(' || c == ')' || c == ' ' || c == ';' || c == '|' || c == ',' {
            blank.push(' ');
        } else {
            blank.push(c);
        }
        i += 1;
        assert(blank@ =~= blanked(t@.take(i as int)));
    }
    assert(t@.take(i as int) == t@);
    let words = text::split_char(blank.as_slice(), ' ');
    let ghost all = text::split(blanked(t@), ' ');
    let mut w: usize = 0;
    while w < words.len()
        invariant
            w <= words@.len(),
            t@ == text::trimmed(s@),
            3 <= t@.len() <= 64,
            forall|k: int| 0 <= k < t@.len() ==> ' ' <= #[trigger] t@[k] <= '~',
            all == text::split(blanked(t@), ' '),
            text::pieces(words@) == all,
            forall|k: int| 0 <= k < w ==> !is_dotted_number(#[trigger] all[k]),
        decreases words@.len() - w,
    {
        assert(all[w as int] == words@[w as int]@);
        if dotted_number(words[w].as_slice()) {
            assert(is_dotted_number(all[w as int]));
            return true;
        }
        w += 1;
    }
    false
}

/// What an overview becomes with one more block.
pub open spec fn noted(o: OverviewModel, b: OemInfoBlockSummary) -> OverviewModel {
    let found = usable_text(payload::text_of(b.text_preview));
    if !b.active {
        o
    } else if b.id == 2601 || b.id == 2603 {
        OverviewModel { device_certificate: Some(true), ..o }
    } else if b.id == 1516 && b.sub_id == 1 && found is Some {
        OverviewModel { base_version: found, ..o }
    } else if b.id == 1518 && b.sub_id == 1 && found is Some {
        OverviewModel { product_model: found, ..o }
    } else if b.id == 1101 && b.sub_id == 4 && found is Some && o.full_version is None {
        OverviewModel { full_version: found, ..o }
    } else if b.id == 80 && b.sub_id == 1 && found is Some {
        OverviewModel { cust_version: found, ..o }
    } else if b.id == 82 && b.sub_id == 1 && found is Some {
        OverviewModel { preload_version: found, ..o }
    } else if b.id == 86 && b.sub_id == 1 && found is Some {
        OverviewModel { base_component: found, ..o }
    } else if found is Some && is_version(found->0) {
        OverviewModel { other_versions: o.other_versions.push((b.id, b.sub_id, found->0)), ..o }
    } else {
        o
    }
}

/// The overview of the first blocks of a summary.
pub open spec fn overview_of(blocks: Seq<OemInfoBlockSummary>) -> OverviewModel
    decreases blocks.len(),
{
    if blocks.len() == 0 {
        empty_overview()
    } else {
        noted(overview_of(blocks.drop_last()), blocks.last())
    }
}

/// Gathers the identity and versions that the active blocks record.
pub fn overview(summary: &OemInfoImageSummary) -> (result: OemInfoOverview)
    ensures
        result@ == overview_of(summary.blocks@),
{
    let mut result = OemInfoOverview::default();
    let mut i: usize = 0;
    assert(summary.blocks@.take(0) =~= Seq::<OemInfoBlockSummary>::empty());
    while i < summary.blocks.len()
        invariant
            i <= summary.blocks@.len(),
            result@ == overview_of(summary.blocks@.take(i as int)),
        decreases summary.blocks@.len() - i,
    {
        let block = &summary.blocks[i];
        let ghost before = result@;
        let ghost listed = result.other_versions@;
        if block.active {
            let found = read_text(&block.text_preview);
            if block.id == 2601 || block.id == 2603 {
                result.device_certificate = Some(true);
            } else if let Some(chars) = found {
                let usable = text::string_of(chars.as_slice());
                if block.id == 1516 && block.sub_id == 1 {
                    result.base_version = Some(usable);
                } else if block.id == 1518 && block.sub_id == 1 {
                    result.product_model = Some(usable);
                } else if block.id == 1101 && block.sub_id == 4 && result.full_version.is_none() {
                    result.full_version = Some(usable);
                } else if block.id == 80 && block.sub_id == 1 {
                    result.cust_version = Some(usable);
                } else if block.id == 82 && block.sub_id == 1 {
                    result.preload_version = Some(usable);
                } else if block.id == 86 && block.sub_id == 1 {
                    result.base_component = Some(usable);
                } else if looks_like_version(chars.as_slice()) {
                    result.other_versions.push((block.id, block.sub_id, usable));
                    assert(result@.other_versions =~= before.other_versions.push(
                        (block.id, block.sub_id, chars@),
                    ));
                }
            }
        }
        assert(result@ =~= noted(before, *block));
        i += 1;
        assert(summary.blocks@.take(i as int).drop_last() =~= summary.blocks@.take(i - 1));
    }
    assert(summary.blocks@.take(i as int) =~= summary.blocks@);
    result
}

/// The active ones of the blocks, in their order.
pub open spec fn active_only(blocks: Seq<OemInfoBlockSummary>) -> Seq<OemInfoBlockSummary>
    decreases blocks.len(),
{
    if blocks.len() == 0 {
        seq![]
    } else if blocks.last().active {
        active_only(blocks.drop_last()).push(blocks.last())
    } else {
        active_only(blocks.drop_last())
    }
}

/// Inactive blocks can be left out: they do not change the overview.
pub proof fn law_inactive_blocks_do_not_count(blocks: Seq<OemInfoBlockSummary>)
    ensures
        overview_of(blocks) == overview_of(active_only(blocks)),
    decreases blocks.len(),
{
    if blocks.len() > 0 {
        law_inactive_blocks_do_not_count(blocks.drop_last());
        if blocks.last().active {
            let before = active_only(blocks.drop_last());
            assert(before.push(blocks.last()).drop_last() =~= before);
        }
    }
}

/// True when some active block of an item records a text.
pub open spec fn records_text(blocks: Seq<OemInfoBlockSummary>, id: u32, sub_id: u32) -> bool {
    exists|i: int|
        0 <= i < blocks.len() && records_item(#[trigger] blocks[i], id, sub_id)
}

/// True when a block is an active one of an item, and records a text.
pub open spec fn records_item(b: OemInfoBlockSummary, id: u32, sub_id: u32) -> bool {
    b.active && b.id == id && b.sub_id == sub_id && usable_text(payload::text_of(b.text_preview))
        is Some
}

/// True when a text is a recorded one: not empty, and without white space around
/// it.
pub open spec fn is_recorded(found: Option<Seq<char>>) -> bool {
    found matches Some(t) ==> t.len() > 0 && text::trimmed(t) == t
}

/// True when a text of the overview is there exactly where a block records it.
pub open spec fn is_field(
    blocks: Seq<OemInfoBlockSummary>,
    id: u32,
    sub_id: u32,
    found: Option<Seq<char>>,
) -> bool {
    (found is Some <==> records_text(blocks, id, sub_id)) && is_recorded(found)
}

proof fn lemma_records_text(blocks: Seq<OemInfoBlockSummary>, id: u32, sub_id: u32)
    requires
        blocks.len() > 0,
    ensures
        records_text(blocks, id, sub_id) == (records_text(blocks.drop_last(), id, sub_id)
            || records_item(blocks.last(), id, sub_id)),
{
    let rest = blocks.drop_last();
    if records_text(rest, id, sub_id) {
        let i = choose|i: int|
            0 <= i < rest.len() && records_item(#[trigger] rest[i], id, sub_id);
        assert(records_item(blocks[i], id, sub_id));
    }
    if records_text(blocks, id, sub_id) {
        let i = choose|i: int|
            0 <= i < blocks.len() && records_item(#[trigger] blocks[i], id, sub_id);
        if i < rest.len() {
            assert(records_item(rest[i], id, sub_id));
        }
    }
    if records_item(blocks.last(), id, sub_id) {
        assert(records_item(blocks[blocks.len() - 1], id, sub_id));
    }
}

proof fn lemma_trimmed_end(s: Seq<char>)
    ensures
        trimmed_end_is_prefix(s),
        text::trimmed_end(text::trimmed_end(s)) == text::trimmed_end(s),
    decreases s.len(),
{
    if s.len() > 0 && text::is_white(s.last()) {
        lemma_trimmed_end(s.drop_last());
        let t = text::trimmed_end(s);
        assert(s.take(t.len() as int) =~= s.drop_last().take(t.len() as int));
    } else {
        assert(s.take(s.len() as int) =~= s);
    }
}

spec fn trimmed_end_is_prefix(s: Seq<char>) -> bool {
    let t = text::trimmed_end(s);
    t.len() <= s.len() && t == s.take(t.len() as int)
}

proof fn lemma_trimmed_start(s: Seq<char>)
    ensures
        text::trimmed_start(s).len() > 0 ==> !text::is_white(text::trimmed_start(s)[0]),
    decreases s.len(),
{
    if s.len() > 0 && text::is_white(s[0]) {
        lemma_trimmed_start(s.skip(1));
    }
}

/// Trimming what is trimmed changes nothing.
proof fn lemma_trimmed(s: Seq<char>)
    ensures
        text::trimmed(text::trimmed(s)) == text::trimmed(s),
{
    let start = text::trimmed_start(s);
    let t = text::trimmed(s);
    lemma_trimmed_start(s);
    lemma_trimmed_end(start);
    if t.len() > 0 {
        assert(t[0] == start[0]);
    }
}

/// The versions and the model of an overview are there exactly where an active
/// block of the item records a text, and are trimmed.
pub proof fn law_overviews_hold_what_blocks_record(blocks: Seq<OemInfoBlockSummary>)
    ensures
        ({
            let o = overview_of(blocks);
            &&& is_field(blocks, 1516, 1, o.base_version)
            &&& is_field(blocks, 1518, 1, o.product_model)
            &&& is_field(blocks, 1101, 4, o.full_version)
            &&& is_field(blocks, 80, 1, o.cust_version)
            &&& is_field(blocks, 82, 1, o.preload_version)
            &&& is_field(blocks, 86, 1, o.base_component)
        }),
    decreases blocks.len(),
{
    if blocks.len() > 0 {
        let b = blocks.last();
        law_overviews_hold_what_blocks_record(blocks.drop_last());
        lemma_records_text(blocks, 1516, 1);
        lemma_records_text(blocks, 1518, 1);
        lemma_records_text(blocks, 1101, 4);
        lemma_records_text(blocks, 80, 1);
        lemma_records_text(blocks, 82, 1);
        lemma_records_text(blocks, 86, 1);
        if let Some(s) = payload::text_of(b.text_preview) {
            lemma_trimmed(s.take(escape_position(s, 0)));
        }
    }
}

/// An active block that records a text fills its field of the overview, and only
/// that: the last such block counts, but for the full version, of which the first
/// does. An active block of a certificate says that there is one.
pub proof fn law_blocks_fill_their_field(blocks: Seq<OemInfoBlockSummary>, b: OemInfoBlockSummary)
    ensures
        ({
            let before = overview_of(blocks);
            let after = overview_of(blocks.push(b));
            let found = usable_text(payload::text_of(b.text_preview));
            let is = |id: u32, sub_id: u32|
                b.active && found is Some && b.id == id && b.sub_id == sub_id;
            &&& after.base_version == if is(1516, 1) {
                found
            } else {
                before.base_version
            }
            &&& after.product_model == if is(1518, 1) {
                found
            } else {
                before.product_model
            }
            &&& after.full_version == if is(1101, 4) && before.full_version is None {
                found
            } else {
                before.full_version
            }
            &&& after.cust_version == if is(80, 1) {
                found
            } else {
                before.cust_version
            }
            &&& after.preload_version == if is(82, 1) {
                found
            } else {
                before.preload_version
            }
            &&& after.base_component == if is(86, 1) {
                found
            } else {
                before.base_component
            }
            &&& after.device_certificate == if b.active && (b.id == 2601 || b.id == 2603) {
                Some(true)
            } else {
                before.device_certificate
            }
        }),
{
    assert(blocks.push(b).drop_last() =~= blocks);
}

/// Another active block whose text is a version is listed with its numbers, behind
/// those before it; no other block is.
pub proof fn law_other_versions_are_listed(blocks: Seq<OemInfoBlockSummary>, b: OemInfoBlockSummary)
    requires
        !(b.id == 1516 || b.id == 1518 || b.id == 1101 || b.id == 80 || b.id == 82 || b.id == 86
            || b.id == 2601 || b.id == 2603),
    ensures
        ({
            let before = overview_of(blocks).other_versions;
            let after = overview_of(blocks.push(b)).other_versions;
            match usable_text(payload::text_of(b.text_preview)) {
                Some(found) => if b.active && is_version(found) {
                    after == before.push((b.id, b.sub_id, found))
                } else {
                    after == before
                },
                None => after == before,
            }
        }),
{
    assert(blocks.push(b).drop_last() =~= blocks);
}

/// The text of a preview is what stands before the first `\x`, without the white
/// space around it.
pub proof fn law_texts_end_at_an_escape(plain: Seq<char>, rest: Seq<char>)
    requires
        forall|i: int| 0 <= i < plain.len() ==> #[trigger] plain[i] != '\\',
    ensures
        ({
            let escaped = plain + seq!['\\', 'x'] + rest;
            &&& usable_text(Some(escaped)) == usable_text(Some(plain))
            &&& text::trimmed(plain).len() > 0 ==> usable_text(Some(plain)) == Some(
                text::trimmed(plain),
            )
            &&& text::trimmed(plain).len() == 0 ==> usable_text(Some(plain)) is None
        }),
        usable_text(None) is None,
{
    let escaped = plain + seq!['\\', 'x'] + rest;
    lemma_escape(escaped, 0, plain.len() as int);
    lemma_no_escape(plain, 0);
    assert(escaped.take(plain.len() as int) =~= plain);
    assert(plain.take(plain.len() as int) =~= plain);
}

proof fn lemma_escape(s: Seq<char>, from: int, at: int)
    requires
        0 <= from <= at,
        at + 1 < s.len(),
        s[at] == '\\' && s[at + 1] == 'x',
        forall|i: int| from <= i < at ==> #[trigger] s[i] != '\\',
    ensures
        escape_position(s, from) == at,
    decreases at - from,
{
    if from < at {
        lemma_escape(s, from + 1, at);
    }
}

proof fn lemma_no_escape(s: Seq<char>, from: int)
    requires
        0 <= from,
        forall|i: int| 0 <= i < s.len() ==> #[trigger] s[i] != '\\',
    ensures
        escape_position(s, from) == s.len(),
    decreases s.len() - from,
{
    if from + 1 < s.len() {
        lemma_no_escape(s, from + 1);
    }
}

/// Two runs of digits with a dot between them are a version, where they have at
/// most 64 characters together; a version has a dot and 3 to 64 characters.
pub proof fn law_dotted_numbers_are_versions(a: Seq<char>, b: Seq<char>, s: Seq<char>)
    requires
        text::all_digits(a, 10),
        text::all_digits(b, 10),
    ensures
        a.len() + 1 + b.len() <= 64 ==> is_version(a + seq!['.'] + b),
        is_version(s) ==> 3 <= text::trimmed(s).len() <= 64,
        is_version(s) ==> forall|i: int|
            0 <= i < text::trimmed(s).len() ==> 32 <= (#[trigger] text::trimmed(s)[i]) as int <= 126,
{
    let t = a + seq!['.'] + b;
    assert forall|i: int| 0 <= i < t.len() implies text::is_digit_in(#[trigger] t[i], 10) || t[i]
        == '.' by {
        if i < a.len() {
            assert(t[i] == a[i]);
        } else if i > a.len() {
            assert(t[i] == b[i - a.len() - 1]);
        }
    }
    assert(!text::is_white(t[0])) by {
        assert(t[0] == a[0]);
    }
    assert(!text::is_white(t.last())) by {
        assert(t.last() == b[b.len() - 1]);
    }
    assert(text::trimmed_start(t) == t);
    assert(text::trimmed(t) == t);
    let blank = blanked(t);
    assert(blank =~= t);
    lemma_one_piece(t, ' ');
    assert(text::split(t, ' ')[0] == t);
    lemma_one_piece(b, '.');
    lemma_where(t, '.', a.len() as int, 0);
    assert(t.take(a.len() as int) =~= a);
    assert(t.skip(a.len() as int + 1) =~= b);
    let parts = text::split(t, '.');
    assert(parts =~= seq![a] + text::split(b, '.'));
    assert(parts[0] == a && parts[1] == b);
    assert(is_dotted_number(t));
}

proof fn lemma_one_piece(s: Seq<char>, c: char)
    requires
        forall|i: int| 0 <= i < s.len() ==> #[trigger] s[i] != c,
    ensures
        text::split(s, c) == seq![s],
{
    text::lemma_position(s, c, 0);
}

proof fn lemma_where(s: Seq<char>, c: char, at: int, from: int)
    requires
        0 <= from <= at < s.len(),
        s[at] == c,
        forall|i: int| from <= i < at ==> #[trigger] s[i] != c,
    ensures
        text::position(s, c, from) == at,
    decreases at - from,
{
    if from < at {
        lemma_where(s, c, at, from + 1);
    }
}

/// A summary counts the blocks of an image and lists each of them with its place, its
/// fields and what is known of its payload.
pub proof fn law_summaries_list_all_blocks(image: OemInfoImage, s: OemInfoImageSummary, i: int)
    requires
        is_summary(image, s),
        0 <= i < image.parsed().len(),
    ensures
        s.file_size == image.bytes().len() && s.region_size == image.bank_size(),
        s.total_blocks == image.parsed().len() && s.blocks@.len() == s.total_blocks,
        s.active_blocks + s.inactive_blocks == s.total_blocks,
        s.region_a_blocks + s.region_b_blocks + s.unknown_region_blocks == s.total_blocks,
        s.standard_blocks + s.compact_blocks + s.reused_blocks == s.total_blocks,
        ({
            let b = image.parsed()[i];
            let t = s.blocks@[i];
            &&& t.offset == b.header.offset && t.version == b.header.version && t.id == b.header.id
            &&& t.sub_id == b.header.sub_id && t.length == b.header.length && t.age == b.header.age
            &&& t.header_size == b.header.header_size && t.layout == b.header.layout
            &&& t.region == b.region && t.active == b.active && t.payload_kind == b.payload.kind
            &&& t.tlv_parts == b.payload.tlv_parts
            &&& t.image_random_adjust == b.payload.image_random_adjust
            &&& t.header_padding_byte == b.header.header_padding_byte
            &&& t.block_padding_byte == b.block_padding_byte
        }),
{
    law_counts_add_up(image.parsed());
    assert(summarizes(image.parsed()[i], s.blocks@[i]));
}

/// Every block is counted once: as active where it is, in its region and with its
/// layout.
pub proof fn law_blocks_are_counted_once(blocks: Seq<ParsedBlock>, b: ParsedBlock)
    ensures
        active_count(blocks.push(b)) == active_count(blocks) + if b.active {
            1int
        } else {
            0int
        },
        region_count(blocks.push(b), b.region) == region_count(blocks, b.region) + 1,
        layout_count(blocks.push(b), b.header.layout) == layout_count(blocks, b.header.layout) + 1,
{
    assert(blocks.push(b).drop_last() =~= blocks);
}

} // verus!
