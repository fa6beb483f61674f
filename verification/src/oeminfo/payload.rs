//! What an OEMINFO block carries: embedded images, length-prefixed parts,
//! plain text, and text or raw data with a signature behind it.

use vstd::prelude::*;

use crate::bytes;
use crate::text;

verus! {

/// Where the data of an embedded image starts in its payload.
pub const IMAGE_DATA_OFFSET: usize = 0x1a;

/// The size of the signature that may follow a payload's data.
pub const SIGNATURE_SIZE: usize = 256;

#[derive(Debug, Clone, Copy, PartialEq, Eq, Structural)]
pub enum OemInfoPayloadKind {
    Raw,
    Ascii,
    Tlv,
    ImageGzip,
    ImageRaw,
    AsciiSigned,
    RawSigned,
    AsciiSignedRandom,
    RawSignedRandom,
}

impl OemInfoPayloadKind {
    /// The name under which a payload kind is listed.
    pub open spec fn listed(self) -> Seq<char> {
        match self {
            OemInfoPayloadKind::Raw => "RAW"@,
            OemInfoPayloadKind::Ascii => "ASCII"@,
            OemInfoPayloadKind::Tlv => "TLV"@,
            OemInfoPayloadKind::ImageGzip => "IMAGE_GZIP"@,
            OemInfoPayloadKind::ImageRaw => "IMAGE_RAW"@,
            OemInfoPayloadKind::AsciiSigned => "ASCII_SIGNED"@,
            OemInfoPayloadKind::RawSigned => "RAW_SIGNED"@,
            OemInfoPayloadKind::AsciiSignedRandom => "ASCII_SIGNED_RANDOM"@,
            OemInfoPayloadKind::RawSignedRandom => "RAW_SIGNED_RANDOM"@,
        }
    }

    pub fn name(self) -> (name: &'static str)
        ensures
            name@ == self.listed(),
    {
        match self {
            OemInfoPayloadKind::Raw => "RAW",
            OemInfoPayloadKind::Ascii => "ASCII",
            OemInfoPayloadKind::Tlv => "TLV",
            OemInfoPayloadKind::ImageGzip => "IMAGE_GZIP",
            OemInfoPayloadKind::ImageRaw => "IMAGE_RAW",
            OemInfoPayloadKind::AsciiSigned => "ASCII_SIGNED",
            OemInfoPayloadKind::RawSigned => "RAW_SIGNED",
            OemInfoPayloadKind::AsciiSignedRandom => "ASCII_SIGNED_RANDOM",
            OemInfoPayloadKind::RawSignedRandom => "RAW_SIGNED_RANDOM",
        }
    }

    /// True for the two kinds that hold an embedded image.
    pub open spec fn is_image(self) -> bool {
        self == OemInfoPayloadKind::ImageRaw || self == OemInfoPayloadKind::ImageGzip
    }

    pub fn holds_image(self) -> (is: bool)
        ensures
            is == self.is_image(),
    {
        self == OemInfoPayloadKind::ImageRaw || self == OemInfoPayloadKind::ImageGzip
    }
}

/// What is known of a block's payload.
#[derive(Debug, Clone)]
pub struct PayloadDetails {
    pub kind: OemInfoPayloadKind,
    pub text_preview: Option<String>,
    pub tlv_parts: usize,
    pub tlv_description: Option<String>,
    pub image_version_hex: Option<String>,
    pub image_random_adjust: Option<u32>,
}

/// The values of `PayloadDetails`, with texts as character sequences.
#[verifier::ext_equal]
pub struct PayloadModel {
    pub kind: OemInfoPayloadKind,
    pub text_preview: Option<Seq<char>>,
    pub tlv_parts: int,
    pub tlv_description: Option<Seq<char>>,
    pub image_version_hex: Option<Seq<char>>,
    pub image_random_adjust: Option<u32>,
}

/// The text of an optional string.
pub open spec fn text_of(value: Option<String>) -> Option<Seq<char>> {
    match value {
        Some(text) => Some(text@),
        None => None,
    }
}

impl View for PayloadDetails {
    type V = PayloadModel;

    open spec fn view(&self) -> PayloadModel {
        PayloadModel {
            kind: self.kind,
            text_preview: text_of(self.text_preview),
            tlv_parts: self.tlv_parts as int,
            tlv_description: text_of(self.tlv_description),
            image_version_hex: text_of(self.image_version_hex),
            image_random_adjust: self.image_random_adjust,
        }
    }
}

/// A payload of a kind of which only a preview is known.
pub open spec fn plain_model(kind: OemInfoPayloadKind, preview: Option<Seq<char>>) -> PayloadModel {
    PayloadModel {
        kind,
        text_preview: preview,
        tlv_parts: 0,
        tlv_description: None,
        image_version_hex: None,
        image_random_adjust: None,
    }
}

fn plain_details(kind: OemInfoPayloadKind, preview: Option<String>) -> (details: PayloadDetails)
    ensures
        details@ == plain_model(kind, text_of(preview)),
{
    PayloadDetails {
        kind,
        text_preview: preview,
        tlv_parts: 0,
        tlv_description: None,
        image_version_hex: None,
        image_random_adjust: None,
    }
}

impl PayloadDetails {
    /// A payload that nothing is known of yet.
    pub fn raw(preview: Option<String>) -> (details: PayloadDetails)
        ensures
            details@ == plain_model(OemInfoPayloadKind::Raw, text_of(preview)),
    {
        plain_details(OemInfoPayloadKind::Raw, preview)
    }
}

// ---------------------------------------------------------------------------
// Text previews
// ---------------------------------------------------------------------------

/// The bytes that plain text may hold.
pub open spec fn is_text_byte(byte: u8) -> bool {
    0x20 <= byte <= 0x7e || byte == 9 || byte == 10 || byte == 13
}

/// The bytes that pad a payload.
pub open spec fn is_padding_byte(byte: u8) -> bool {
    byte == 0 || byte == 0xff
}

fn text_byte(byte: u8) -> (is: bool)
    ensures
        is == is_text_byte(byte),
{
    (0x20 <= byte && byte <= 0x7e) || byte == 9 || byte == 10 || byte == 13
}

fn padding_byte(byte: u8) -> (is: bool)
    ensures
        is == is_padding_byte(byte),
{
    byte == 0 || byte == 0xff
}

/// How a preview shows one byte: as itself, or as an escape.
pub open spec fn shown_byte(byte: u8) -> Seq<char> {
    if 0x20 <= byte <= 0x7e || byte == 9 {
        seq![byte as char]
    } else {
        seq!['\\', 'x', text::hex_digit((byte / 16) as int), text::hex_digit((byte % 16) as int)]
    }
}

/// How a preview shows data.
pub open spec fn shown(data: Seq<u8>) -> Seq<char>
    decreases data.len(),
{
    if data.len() == 0 {
        seq![]
    } else {
        shown(data.drop_last()) + shown_byte(data.last())
    }
}

fn sanitize_preview(data: &[u8]) -> (preview: String)
    ensures
        preview@ == shown(data@),
{
    let mut output: Vec<char> = Vec::new();
    let mut i: usize = 0;
    while i < data.len()
        invariant
            i <= data@.len(),
            output@ == shown(data@.take(i as int)),
        decreases data@.len() - i,
    {
        let byte: u8 = data[i];
        let ghost before = output@;
        if (0x20 <= byte && byte <= 0x7e) || byte == 9 {
            output.push(byte as char);
        } else {
            output.push('\\');
            output.push('x');
            output.push(text::hex_char(byte / 16));
            output.push(text::hex_char(byte % 16));
        }
        assert(output@ =~= before + shown_byte(byte));
        i += 1;
        assert(data@.take(i as int).drop_last() == data@.take(i - 1));
    }
    assert(data@.take(i as int) == data@);
    text::string_of(output.as_slice())
}

/// The number of bytes that text may not hold; padding counts only when strict.
pub open spec fn foreign_bytes(data: Seq<u8>, strict: bool) -> nat
    decreases data.len(),
{
    if data.len() == 0 {
        0
    } else {
        let byte = data.last();
        foreign_bytes(data.drop_last(), strict) + if is_text_byte(byte) || (!strict
            && is_padding_byte(byte)) {
            0nat
        } else {
            1nat
        }
    }
}

/// Text: at most one byte in twenty is foreign to it.
pub open spec fn reads_as_text(data: Seq<u8>, strict: bool) -> bool {
    data.len() > 0 && foreign_bytes(data, strict) * 100 <= data.len() * 5
}

fn is_ascii(data: &[u8], strict: bool) -> (is: bool)
    ensures
        is == reads_as_text(data@, strict),
{
    if data.len() == 0 {
        return false;
    }
    let mut invalid: usize = 0;
    let mut i: usize = 0;
    while i < data.len()
        invariant
            invalid <= i <= data@.len(),
            invalid == foreign_bytes(data@.take(i as int), strict),
        decreases data@.len() - i,
    {
        let byte: u8 = data[i];
        if !(text_byte(byte) || (!strict && padding_byte(byte))) {
            invalid += 1;
        }
        i += 1;
        assert(data@.take(i as int).drop_last() == data@.take(i - 1));
    }
    assert(data@.take(i as int) == data@);
    (invalid as u128) * 100 <= (data.len() as u128) * 5
}

/// True when data is text and padding throughout.
pub open spec fn is_padded_text(data: Seq<u8>) -> bool {
    data.len() > 0 && forall|i: int|
        0 <= i < data.len() ==> is_text_byte(#[trigger] data[i]) || is_padding_byte(data[i])
}

fn ascii_with_padding_only(data: &[u8]) -> (is: bool)
    ensures
        is == is_padded_text(data@),
{
    let mut i: usize = 0;
    while i < data.len()
        invariant
            i <= data@.len(),
            forall|k: int|
                0 <= k < i ==> is_text_byte(#[trigger] data@[k]) || is_padding_byte(data@[k]),
        decreases data@.len() - i,
    {
        if !(text_byte(data[i]) || padding_byte(data[i])) {
            return false;
        }
        i += 1;
    }
    data.len() > 0
}

/// The preview of data that reads as text.
pub open spec fn preview_of(data: Seq<u8>) -> Option<Seq<char>> {
    if reads_as_text(data, false) {
        Some(shown(data))
    } else {
        None
    }
}

fn ascii_preview(data: &[u8]) -> (preview: Option<String>)
    ensures
        text_of(preview) == preview_of(data@),
{
    if is_ascii(data, false) {
        Some(sanitize_preview(data))
    } else {
        None
    }
}

// ---------------------------------------------------------------------------
// Embedded images
// ---------------------------------------------------------------------------

/// The digit of a number below sixteen, with capital letters.
pub open spec fn capital_hex_digit(n: int) -> char {
    if n < 10 {
        (48 + n) as u8 as char
    } else {
        (55 + n) as u8 as char
    }
}

/// Two capital hexadecimal digits for each byte.
pub open spec fn capital_hex(data: Seq<u8>) -> Seq<char> {
    Seq::new(
        2 * data.len(),
        |i: int|
            if i % 2 == 0 {
                capital_hex_digit((data[i / 2] / 16) as int)
            } else {
                capital_hex_digit((data[i / 2] % 16) as int)
            },
    )
}

/// `hex::encode_upper` writes each byte as two capital hexadecimal digits, the
/// high half first, in the order of the bytes.
#[verifier::external_body]
pub(crate) fn encode_upper(data: &[u8]) -> (encoded: String)
    ensures
        encoded@ == capital_hex(data@),
{
    hex::encode_upper(data)
}

/// The kind of image that the four bytes before and at its start announce.
pub open spec fn signature_kind(s: Seq<u8>) -> Option<OemInfoPayloadKind> {
    if s == seq![0u8, 0, 0x1f, 0x8b] {
        Some(OemInfoPayloadKind::ImageGzip)
    } else if s == seq![0u8, 0, 0x42, 0x4d] {
        Some(OemInfoPayloadKind::ImageRaw)
    } else {
        None
    }
}

pub fn image_signature(s: &[u8]) -> (kind: Option<OemInfoPayloadKind>)
    requires
        s@.len() == 4,
    ensures
        kind == signature_kind(s@),
{
    let zero = s[0] == 0 && s[1] == 0;
    if zero && s[2] == 0x1f && s[3] == 0x8b {
        assert(s@ =~= seq![0u8, 0, 0x1f, 0x8b]);
        Some(OemInfoPayloadKind::ImageGzip)
    } else if zero && s[2] == 0x42 && s[3] == 0x4d {
        assert(s@ =~= seq![0u8, 0, 0x42, 0x4d]);
        Some(OemInfoPayloadKind::ImageRaw)
    } else {
        None
    }
}

/// The details of a payload that holds an image: a header that names the data
/// offset, the end and how far the end was moved, a version, and the image.
pub open spec fn image_model(payload: Seq<u8>) -> Option<PayloadModel> {
    if payload.len() >= 28 && bytes::le32(payload, 0) == IMAGE_DATA_OFFSET && bytes::le32(
        payload,
        4,
    ) - bytes::le32(payload, 8) == payload.len() {
        match signature_kind(payload.subrange(24, 28)) {
            Some(kind) => Some(
                PayloadModel {
                    kind,
                    text_preview: None,
                    tlv_parts: 0,
                    tlv_description: None,
                    image_version_hex: Some(capital_hex(payload.subrange(12, 24))),
                    image_random_adjust: Some(bytes::le32(payload, 8) as u32),
                },
            ),
            None => None,
        }
    } else {
        None
    }
}

fn classify_image(payload: &[u8]) -> (details: Option<PayloadDetails>)
    ensures
        match details {
            Some(found) => image_model(payload@) == Some(found@),
            None => image_model(payload@) is None,
        },
{
    if payload.len() < 28 || bytes::read_u32(payload, 0) as usize != IMAGE_DATA_OFFSET {
        return None;
    }
    let end_offset: u32 = bytes::read_u32(payload, 4);
    let random_adjust: u32 = bytes::read_u32(payload, 8);
    if end_offset < random_adjust || (end_offset - random_adjust) as u64 != payload.len() as u64 {
        return None;
    }
    match image_signature(&payload[24..28]) {
        Some(kind) => Some(
            PayloadDetails {
                kind,
                text_preview: None,
                tlv_parts: 0,
                tlv_description: None,
                image_version_hex: Some(encode_upper(&payload[12..24])),
                image_random_adjust: Some(random_adjust),
            },
        ),
        None => None,
    }
}

// ---------------------------------------------------------------------------
// Length-prefixed parts
// ---------------------------------------------------------------------------

pub open spec fn is_digit_byte(byte: u8) -> bool {
    0x30 <= byte <= 0x39
}

/// The number that a run of ASCII digits writes.
pub open spec fn number_of(digits: Seq<u8>) -> nat
    decreases digits.len(),
{
    if digits.len() == 0 {
        0
    } else {
        number_of(digits.drop_last()) * 10 + (digits.last() - 0x30) as nat
    }
}

/// A number of up to three digits is below a thousand.
proof fn lemma_number_bound(digits: Seq<u8>)
    requires
        digits.len() <= 3,
        forall|i: int| 0 <= i < digits.len() ==> is_digit_byte(#[trigger] digits[i]),
    ensures
        number_of(digits) < 1000,
        digits.len() <= 2 ==> number_of(digits) < 100,
        digits.len() <= 1 ==> number_of(digits) < 10,
        digits.len() <= 0 ==> number_of(digits) < 1,
    decreases digits.len(),
{
    if digits.len() > 0 {
        assert(is_digit_byte(digits.last()));
        lemma_number_bound(digits.drop_last());
    }
}

fn parse_decimal(digits: &[u8]) -> (value: usize)
    requires
        digits@.len() <= 3,
        forall|i: int| 0 <= i < digits@.len() ==> is_digit_byte(#[trigger] digits@[i]),
    ensures
        value == number_of(digits@),
        value < 1000,
{
    let mut value: usize = 0;
    let mut i: usize = 0;
    while i < digits.len()
        invariant
            digits@.len() <= 3,
            forall|k: int| 0 <= k < digits@.len() ==> is_digit_byte(#[trigger] digits@[k]),
            i <= digits@.len(),
            value == number_of(digits@.take(i as int)),
        decreases digits@.len() - i,
    {
        proof {
            lemma_number_bound(digits@.take(i as int));
            assert(is_digit_byte(digits@[i as int]));
        }
        value = value * 10 + (digits[i] - 0x30) as usize;
        i += 1;
        assert(digits@.take(i as int).drop_last() == digits@.take(i - 1));
    }
    assert(digits@.take(i as int) == digits@);
    proof {
        lemma_number_bound(digits@);
    }
    value
}

/// True when nothing but padding stands from `from` on.
pub open spec fn padded_from(data: Seq<u8>, from: int) -> bool {
    forall|i: int| from <= i < data.len() ==> is_padding_byte(#[trigger] data[i])
}

fn only_padding(data: &[u8], from: usize) -> (is: bool)
    ensures
        is == padded_from(data@, from as int),
{
    let mut i: usize = from;
    while i < data.len()
        invariant
            from <= i,
            forall|k: int| from <= k < i && k < data@.len() ==> is_padding_byte(
                #[trigger] data@[k],
            ),
        decreases data@.len() - i,
    {
        if !padding_byte(data[i]) {
            return false;
        }
        i += 1;
    }
    true
}

/// The first zero byte among the `limit` bytes from `from` on.
pub open spec fn first_zero(data: Seq<u8>, from: int, limit: int) -> Option<int>
    decreases limit,
{
    if limit <= 0 || from >= data.len() {
        None
    } else if data[from] == 0 {
        Some(from)
    } else {
        first_zero(data, from + 1, limit - 1)
    }
}

/// The part that starts at `cursor`: up to three digits, a zero byte, and as
/// many bytes as the digits say. Gives where those bytes start and end.
pub open spec fn part_at(data: Seq<u8>, cursor: int) -> Option<(int, int)> {
    match first_zero(data, cursor, 4) {
        None => None,
        Some(null) => {
            let digits = data.subrange(cursor, null);
            let end = null + 1 + number_of(digits);
            if digits.len() > 0 && (forall|i: int|
                cursor <= i < null ==> is_digit_byte(#[trigger] data[i])) && end <= data.len() {
                Some((null + 1, end))
            } else {
                None
            }
        },
    }
}

/// The parts from `cursor` on, up to the padding that ends the data.
pub open spec fn parts_from(data: Seq<u8>, cursor: int) -> Option<Seq<(int, int)>>
    decreases data.len() - cursor,
{
    if cursor < 0 || cursor >= data.len() || padded_from(data, cursor) {
        Some(seq![])
    } else {
        match part_at(data, cursor) {
            Some((start, end)) => if start > cursor && end >= start {
                match parts_from(data, end) {
                    Some(rest) => Some(seq![(start, end)] + rest),
                    None => None,
                }
            } else {
                None
            },
            None => None,
        }
    }
}

/// Where the parts of the data stand, if it is a sequence of them.
pub open spec fn tlv_ranges(data: Seq<u8>) -> Option<Seq<(int, int)>> {
    match parts_from(data, 0) {
        Some(parts) => if parts.len() > 0 {
            Some(parts)
        } else {
            None
        },
        None => None,
    }
}

fn parse_part(data: &[u8], cursor: usize) -> (part: Option<(usize, usize)>)
    requires
        cursor < data@.len(),
    ensures
        match part {
            Some((start, end)) => part_at(data@, cursor as int) == Some((start as int, end as int))
                && cursor < start <= end <= data@.len(),
            None => part_at(data@, cursor as int) is None,
        },
{
    let mut null: usize = cursor;
    let mut left: usize = 4;
    while left > 0 && null < data.len() && data[null] != 0
        invariant
            cursor <= null <= data@.len(),
            null + left == cursor + 4,
            first_zero(data@, cursor as int, 4) == first_zero(data@, null as int, left as int),
        decreases left,
    {
        null += 1;
        left -= 1;
    }
    if left == 0 || null >= data.len() {
        return None;
    }
    assert(first_zero(data@, cursor as int, 4) == Some(null as int));
    if null == cursor {
        return None;
    }
    let mut i: usize = cursor;
    while i < null
        invariant
            cursor <= i <= null < data@.len(),
            first_zero(data@, cursor as int, 4) == Some(null as int),
            forall|k: int| cursor <= k < i ==> is_digit_byte(#[trigger] data@[k]),
        decreases null - i,
    {
        if !(0x30 <= data[i] && data[i] <= 0x39) {
            assert(!is_digit_byte(data@[i as int]));
            return None;
        }
        i += 1;
    }
    let digits = &data[cursor..null];
    assert forall|k: int| 0 <= k < digits@.len() implies is_digit_byte(#[trigger] digits@[k]) by {
        assert(is_digit_byte(data@[cursor + k]));
    }
    let length: usize = parse_decimal(digits);
    let start: usize = null + 1;
    if length > data.len() - start {
        return None;
    }
    Some((start, start + length))
}

/// The ranges of a list of pairs of positions.
pub open spec fn ranges(list: Seq<(usize, usize)>) -> Seq<(int, int)> {
    list.map_values(|r: (usize, usize)| (r.0 as int, r.1 as int))
}

fn parse_tlv(data: &[u8]) -> (parts: Option<Vec<(usize, usize)>>)
    ensures
        match parts {
            Some(list) => tlv_ranges(data@) == Some(ranges(list@)) && forall|i: int|
                0 <= i < list@.len() ==> (#[trigger] list@[i]).0 <= list@[i].1 <= data@.len(),
            None => tlv_ranges(data@) is None,
        },
{
    let mut parts: Vec<(usize, usize)> = Vec::new();
    let mut cursor: usize = 0;
    while cursor < data.len() && !only_padding(data, cursor)
        invariant
            cursor <= data@.len(),
            parts_from(data@, 0) == match parts_from(data@, cursor as int) {
                Some(rest) => Some(ranges(parts@) + rest),
                None => None,
            },
            forall|i: int|
                0 <= i < parts@.len() ==> (#[trigger] parts@[i]).0 <= parts@[i].1 <= data@.len(),
        decreases data@.len() - cursor,
    {
        match parse_part(data, cursor) {
            None => {
                return None;
            },
            Some((start, end)) => {
                let ghost before = parts@;
                parts.push((start, end));
                proof {
                    assert(ranges(parts@) =~= ranges(before) + seq![(start as int, end as int)]);
                    match parts_from(data@, end as int) {
                        Some(rest) => {
                            assert(ranges(before) + (seq![(start as int, end as int)] + rest)
                                =~= ranges(parts@) + rest);
                        },
                        None => {},
                    }
                }
                cursor = end;
            },
        }
    }
    assert(ranges(parts@) + Seq::<(int, int)>::empty() =~= ranges(parts@));
    if parts.len() == 0 {
        None
    } else {
        Some(parts)
    }
}

/// What the description of a sequence of parts says of one of them.
pub open spec fn part_label(part: Seq<u8>, index: int, count: int) -> Seq<char> {
    if index == 0 {
        if reads_as_text(part, true) {
            "ASCII"@
        } else {
            "RAW"@
        }
    } else if part.len() == SIGNATURE_SIZE && !bytes::all_equal(part, 0) && !bytes::all_equal(
        part,
        0xff,
    ) {
        "SIGN"@
    } else if index + 1 == count {
        "RANDOM"@
    } else {
        "PART"@
    }
}

/// The labels of the first `n` parts, with a plus between them.
pub open spec fn labels(data: Seq<u8>, parts: Seq<(int, int)>, n: int) -> Seq<char>
    decreases n,
{
    if n <= 0 {
        seq![]
    } else {
        let part = data.subrange(parts[n - 1].0, parts[n - 1].1);
        let label = part_label(part, n - 1, parts.len() as int);
        if n == 1 {
            label
        } else {
            labels(data, parts, n - 1) + "+"@ + label
        }
    }
}

fn describe_parts(data: &[u8], parts: &[(usize, usize)]) -> (description: String)
    requires
        forall|i: int|
            0 <= i < parts@.len() ==> (#[trigger] parts@[i]).0 <= parts@[i].1 <= data@.len(),
    ensures
        description@ == labels(data@, ranges(parts@), parts@.len() as int),
{
    let mut out: Vec<char> = Vec::new();
    let mut i: usize = 0;
    while i < parts.len()
        invariant
            i <= parts@.len(),
            forall|k: int|
                0 <= k < parts@.len() ==> (#[trigger] parts@[k]).0 <= parts@[k].1 <= data@.len(),
            out@ == labels(data@, ranges(parts@), i as int),
        decreases parts@.len() - i,
    {
        let (start, end) = parts[i];
        let part = &data[start..end];
        assert(ranges(parts@)[i as int] == (start as int, end as int));
        let ghost before = out@;
        if i > 0 {
            text::append_text(&mut out, "+");
        }
        let label: &str = if i == 0 {
            if is_ascii(part, true) {
                "ASCII"
            } else {
                "RAW"
            }
        } else if part.len() == SIGNATURE_SIZE && !bytes::is_filled(part, 0) && !bytes::is_filled(
            part,
            0xff,
        ) {
            "SIGN"
        } else if i + 1 == parts.len() {
            "RANDOM"
        } else {
            "PART"
        };
        assert(label@ == part_label(part@, i as int, parts@.len() as int));
        text::append_text(&mut out, label);
        i += 1;
        assert(out@ =~= labels(data@, ranges(parts@), i as int));
    }
    text::string_of(out.as_slice())
}

/// How many digits, three at most, stand right before `end`.
pub open spec fn digits_before(data: Seq<u8>, end: int, limit: int) -> int
    decreases limit,
{
    if limit <= 0 || end <= 0 || end > data.len() || !is_digit_byte(data[end - 1]) {
        0
    } else {
        1 + digits_before(data, end - 1, limit - 1)
    }
}

/// `digits_before` counts digits only, and no more than the limit.
proof fn lemma_digits_before(data: Seq<u8>, end: int, limit: int)
    requires
        0 <= end <= data.len(),
        0 <= limit,
    ensures
        0 <= digits_before(data, end, limit) <= limit,
        digits_before(data, end, limit) <= end,
        forall|k: int|
            end - digits_before(data, end, limit) <= k < end ==> is_digit_byte(#[trigger] data[k]),
    decreases limit,
{
    if limit > 0 && end > 0 && is_digit_byte(data[end - 1]) {
        lemma_digits_before(data, end - 1, limit - 1);
    }
}

/// Where the part starts whose zero byte is at `null`, if it ends the data.
pub open spec fn tail_part_at(data: Seq<u8>, null: int) -> Option<int> {
    let count = digits_before(data, null, 3);
    let start = null - count;
    if data[null] == 0 && count > 0 && !(start > 0 && is_digit_byte(data[start - 1])) && number_of(
        data.subrange(start, null),
    ) == data.len() - (null + 1) {
        Some(start)
    } else {
        None
    }
}

/// The start of the last part that ends the data, with its zero byte at
/// `null` or before.
pub open spec fn tail_part(data: Seq<u8>, null: int) -> Option<int>
    decreases null,
{
    if null < 1 || null >= data.len() {
        None
    } else {
        match tail_part_at(data, null) {
            Some(start) => Some(start),
            None => tail_part(data, null - 1),
        }
    }
}

fn find_tail_tlv(data: &[u8]) -> (start: Option<usize>)
    ensures
        match start {
            Some(at) => data@.len() >= 3 && tail_part(data@, data@.len() - 1) == Some(at as int)
                && at < data@.len(),
            None => data@.len() < 3 || tail_part(data@, data@.len() - 1) is None,
        },
{
    if data.len() < 3 {
        return None;
    }
    let mut null: usize = data.len() - 1;
    while null >= 1
        invariant
            3 <= data@.len(),
            null < data@.len(),
            tail_part(data@, data@.len() - 1) == tail_part(data@, null as int),
        decreases null,
    {
        if data[null] == 0 {
            let mut start: usize = null;
            let mut left: usize = 3;
            while left > 0 && start > 0 && 0x30 <= data[start - 1] && data[start - 1] <= 0x39
                invariant
                    start <= null < data@.len(),
                    left <= 3,
                    null - start == 3 - left,
                    digits_before(data@, null as int, 3) == (null - start) + digits_before(
                        data@,
                        start as int,
                        left as int,
                    ),
                    forall|k: int| start <= k < null ==> is_digit_byte(#[trigger] data@[k]),
                decreases left,
            {
                start -= 1;
                left -= 1;
            }
            proof {
                lemma_digits_before(data@, null as int, 3);
                assert(digits_before(data@, start as int, left as int) == 0);
            }
            if start < null && !(start > 0 && 0x30 <= data[start - 1] && data[start - 1] <= 0x39) {
                let digits = &data[start..null];
                assert forall|k: int| 0 <= k < digits@.len() implies is_digit_byte(
                    #[trigger] digits@[k],
                ) by {
                    assert(is_digit_byte(data@[start + k]));
                }
                let length: usize = parse_decimal(digits);
                if length == data.len() - (null + 1) {
                    return Some(start);
                }
            }
        }
        null -= 1;
    }
    None
}

// ---------------------------------------------------------------------------
// Signed data
// ---------------------------------------------------------------------------

/// The data before a random part that ends the payload, and whether there is
/// such a part. A payload whose data would be no longer than a signature is
/// taken to have none.
pub open spec fn before_random(payload: Seq<u8>) -> (Seq<u8>, bool) {
    if payload.len() >= 3 {
        match tail_part(payload, payload.len() - 1) {
            Some(start) => if start <= SIGNATURE_SIZE {
                (payload, false)
            } else {
                (payload.take(start), true)
            },
            None => (payload, false),
        }
    } else {
        (payload, false)
    }
}

/// The data that a signature would follow.
pub open spec fn signed_data(payload: Seq<u8>) -> Seq<u8> {
    let remaining = before_random(payload).0;
    remaining.take(remaining.len() - SIGNATURE_SIZE)
}

/// The bytes that would be a signature.
pub open spec fn signature(payload: Seq<u8>) -> Seq<u8> {
    let remaining = before_random(payload).0;
    remaining.skip(remaining.len() - SIGNATURE_SIZE)
}

/// True when the payload is long enough to hold data and a signature.
pub open spec fn may_be_signed(payload: Seq<u8>) -> bool {
    before_random(payload).0.len() > SIGNATURE_SIZE
}

/// The details of a payload. `data_dense` and `signature_dense` say whether the
/// data and the signature that may follow it have a high entropy.
pub open spec fn payload_model(
    payload: Seq<u8>,
    data_dense: bool,
    signature_dense: bool,
) -> PayloadModel {
    let data = signed_data(payload);
    let random = before_random(payload).1;
    let data_is_text = reads_as_text(data, false);
    let has_signature = random || ((data_is_text || !data_dense) && signature_dense);
    match image_model(payload) {
        Some(image) => image,
        None => match tlv_ranges(payload) {
            Some(parts) => PayloadModel {
                kind: OemInfoPayloadKind::Tlv,
                text_preview: preview_of(payload.subrange(parts[0].0, parts[0].1)),
                tlv_parts: parts.len() as int,
                tlv_description: Some(labels(payload, parts, parts.len() as int)),
                image_version_hex: None,
                image_random_adjust: None,
            },
            None => if reads_as_text(payload, false) && reads_as_text(payload, true) {
                plain_model(OemInfoPayloadKind::Ascii, Some(shown(payload)))
            } else if may_be_signed(payload) && has_signature {
                plain_model(
                    if data_is_text && reads_as_text(data, true) {
                        if random {
                            OemInfoPayloadKind::AsciiSignedRandom
                        } else {
                            OemInfoPayloadKind::AsciiSigned
                        }
                    } else {
                        if random {
                            OemInfoPayloadKind::RawSignedRandom
                        } else {
                            OemInfoPayloadKind::RawSigned
                        }
                    },
                    preview_of(data),
                )
            } else {
                plain_model(
                    OemInfoPayloadKind::Raw,
                    if reads_as_text(payload, false) || is_padded_text(payload) {
                        Some(shown(payload))
                    } else {
                        None
                    },
                )
            },
        },
    }
}

/// True when `judge` may give the verdict on the bytes `data`.
pub open spec fn judged<F: Fn(&[u8]) -> bool>(judge: F, data: Seq<u8>, verdict: bool) -> bool {
    exists|slice: &[u8]| slice@ == data && call_ensures(judge, (slice,), verdict)
}

/// True when `details` are those of the payload, with the verdicts on its
/// entropy as `judge` gives them where they are asked for.
pub open spec fn is_payload<F: Fn(&[u8]) -> bool>(
    judge: F,
    payload: Seq<u8>,
    details: PayloadModel,
) -> bool {
    exists|data_dense: bool, signature_dense: bool|
        {
            &&& #[trigger] payload_model(payload, data_dense, signature_dense) == details
            &&& data_dense ==> judged(judge, signed_data(payload), true)
            &&& signature_dense ==> judged(judge, signature(payload), true)
            &&& may_be_signed(payload) && image_model(payload) is None && tlv_ranges(
                payload,
            ) is None && !reads_as_text(payload, true) ==> {
                &&& judged(judge, signature(payload), signature_dense)
                &&& !reads_as_text(signed_data(payload), false) ==> judged(
                    judge,
                    signed_data(payload),
                    data_dense,
                )
            }
        }
}

/// A payload that holds an image is at least as long as the image's header.
pub proof fn lemma_image_length<F: Fn(&[u8]) -> bool>(
    judge: F,
    payload: Seq<u8>,
    details: PayloadModel,
)
    requires
        is_payload(judge, payload, details),
        details.kind.is_image(),
    ensures
        payload.len() >= 28,
        image_model(payload) == Some(details),
{
    let (data_dense, signature_dense) = choose|data_dense: bool, signature_dense: bool|
        #[trigger] payload_model(payload, data_dense, signature_dense) == details;
    assert(payload_model(payload, data_dense, signature_dense) == details);
}

/// Classifies a payload; `high_entropy` says of bytes whether they look random.
pub fn classify_payload<F: Fn(&[u8]) -> bool>(payload: &[u8], high_entropy: &F) -> (details:
    PayloadDetails)
    requires
        forall|slice: &[u8]| call_requires(*high_entropy, (slice,)),
    ensures
        is_payload(*high_entropy, payload@, details@),
{
    if let Some(image) = classify_image(payload) {
        assert(payload_model(payload@, false, false) == image@);
        return image;
    }
    if let Some(parts) = parse_tlv(payload) {
        let (start, end) = parts[0];
        assert(ranges(parts@)[0] == (start as int, end as int));
        let details = PayloadDetails {
            kind: OemInfoPayloadKind::Tlv,
            text_preview: ascii_preview(&payload[start..end]),
            tlv_parts: parts.len(),
            tlv_description: Some(describe_parts(payload, parts.as_slice())),
            image_version_hex: None,
            image_random_adjust: None,
        };
        assert(payload_model(payload@, false, false) == details@);
        return details;
    }
    let loose = is_ascii(payload, false);
    proof {
        lemma_strict_is_loose(payload@);
    }
    if loose && is_ascii(payload, true) {
        let details = plain_details(OemInfoPayloadKind::Ascii, Some(sanitize_preview(payload)));
        assert(payload_model(payload@, false, false) == details@);
        return details;
    }
    let mut remaining: &[u8] = payload;
    let mut random_present = false;
    if let Some(start) = find_tail_tlv(payload) {
        if start > SIGNATURE_SIZE {
            remaining = &payload[0..start];
            random_present = true;
        }
    }
    assert(before_random(payload@) == (remaining@, random_present));
    let ghost mut data_verdict = false;
    let ghost mut signature_verdict = false;
    if remaining.len() > SIGNATURE_SIZE {
        let cut: usize = remaining.len() - SIGNATURE_SIZE;
        let data = &remaining[0..cut];
        let tail = &remaining[cut..remaining.len()];
        assert(data@ == signed_data(payload@));
        assert(tail@ == signature(payload@));
        let data_is_text = is_ascii(data, false);
        let data_is_dense = if data_is_text {
            false
        } else {
            high_entropy(data)
        };
        let signature_is_dense = high_entropy(tail);
        proof {
            data_verdict = data_is_dense;
            signature_verdict = signature_is_dense;
            assert(judged(*high_entropy, tail@, signature_is_dense));
            assert(!data_is_text ==> judged(*high_entropy, data@, data_is_dense));
        }
        let has_signature = random_present || ((data_is_text || !data_is_dense)
            && signature_is_dense);
        if has_signature {
            let strict = data_is_text && is_ascii(data, true);
            let kind = if strict {
                if random_present {
                    OemInfoPayloadKind::AsciiSignedRandom
                } else {
                    OemInfoPayloadKind::AsciiSigned
                }
            } else {
                if random_present {
                    OemInfoPayloadKind::RawSignedRandom
                } else {
                    OemInfoPayloadKind::RawSigned
                }
            };
            let details = plain_details(kind, ascii_preview(data));
            assert(payload_model(payload@, data_verdict, signature_verdict) == details@);
            return details;
        }
    }
    let preview: Option<String> = if loose || ascii_with_padding_only(payload) {
        Some(sanitize_preview(payload))
    } else {
        None
    };
    let details = PayloadDetails::raw(preview);
    assert(payload_model(payload@, data_verdict, signature_verdict) == details@);
    details
}

/// What reads as text strictly also does so when padding is let through.
proof fn lemma_strict_is_loose(data: Seq<u8>)
    ensures
        foreign_bytes(data, false) <= foreign_bytes(data, true),
        reads_as_text(data, true) ==> reads_as_text(data, false),
    decreases data.len(),
{
    if data.len() > 0 {
        lemma_strict_is_loose(data.drop_last());
    }
}

// ---------------------------------------------------------------------------
// What payloads are taken for
// ---------------------------------------------------------------------------

/// A byte is foreign to text unless it can be printed or is a tab, a line feed or a
/// carriage return; zeros and 0xff are foreign only to strict text. Text is not
/// empty, and at most one of its bytes in twenty is foreign.
pub proof fn law_text_has_few_foreign_bytes(data: Seq<u8>, byte: u8, strict: bool)
    ensures
        foreign_bytes(seq![], strict) == 0,
        ({
            let known = (32 <= byte && byte <= 126) || byte == 9 || byte == 10 || byte == 13 || (
            !strict && (byte == 0 || byte == 255));
            foreign_bytes(data.push(byte), strict) == foreign_bytes(data, strict) + if known {
                0int
            } else {
                1int
            }
        }),
        reads_as_text(data, strict) <==> data.len() > 0 && 20 * foreign_bytes(data, strict)
            <= data.len(),
{
    assert(data.push(byte).drop_last() =~= data);
}

/// A preview shows bytes in their order: one that can be printed and a tab as they
/// are, every other one as `\x` and its two digits, in small letters.
pub proof fn law_previews_show_bytes(data: Seq<u8>, byte: u8)
    ensures
        shown(seq![]).len() == 0,
        (32 <= byte && byte <= 126) || byte == 9 ==> shown(data.push(byte)) == shown(data).push(
            byte as char,
        ),
        !((32 <= byte && byte <= 126) || byte == 9) ==> {
            let s = shown(data.push(byte));
            let n = shown(data).len() as int;
            &&& s.len() == n + 4 && s.take(n) == shown(data)
            &&& s[n] == '\\' && s[n + 1] == 'x'
            &&& text::digit_value(s[n + 2]) == Some((byte / 16) as nat)
            &&& text::digit_value(s[n + 3]) == Some((byte % 16) as nat)
            &&& !('A' <= s[n + 2] <= 'F') && !('A' <= s[n + 3] <= 'F')
        },
{
    assert(data.push(byte).drop_last() =~= data);
    let s = shown(data.push(byte));
    let n = shown(data).len() as int;
    assert(s.take(n) =~= shown(data));
    if (32 <= byte && byte <= 126) || byte == 9 {
        assert(s =~= shown(data).push(byte as char));
    } else {
        assert(s[n + 2] == text::hex_digit((byte / 16) as int));
        assert(s[n + 3] == text::hex_digit((byte % 16) as int));
    }
}

/// A payload holds an image where it states 26 as where the image starts, an end
/// that is the length of the payload and what it was moved by, and two zeros before
/// the first bytes of a gzip stream or of a bitmap. Its version is the twelve bytes
/// from 12 on.
pub proof fn law_images_are_told_by_their_header(payload: Seq<u8>)
    ensures
        image_model(payload) is Some <==> {
            &&& payload.len() >= 28
            &&& bytes::le32(payload, 0) == 26
            &&& bytes::le32(payload, 4) == payload.len() + bytes::le32(payload, 8)
            &&& payload[24] == 0 && payload[25] == 0
            &&& (payload[26] == 0x1f && payload[27] == 0x8b) || (payload[26] == 0x42 && payload[27]
                == 0x4d)
        },
        image_model(payload) matches Some(m) ==> {
            &&& m.kind == OemInfoPayloadKind::ImageGzip <==> payload[26] == 0x1f
            &&& m.kind == OemInfoPayloadKind::ImageRaw <==> payload[26] == 0x42
            &&& m.text_preview is None && m.tlv_parts == 0 && m.tlv_description is None
            &&& m.image_random_adjust == Some(bytes::le32(payload, 8) as u32)
            &&& m.image_version_hex matches Some(v) && v.len() == 24 && forall|i: int|
                #![trigger payload[i]]
                12 <= i < 24 ==> text::digit_value(v[2 * (i - 12)]) == Some(
                    (payload[i] / 16) as nat,
                ) && text::digit_value(v[2 * (i - 12) + 1]) == Some((payload[i] % 16) as nat)
        },
{
    if payload.len() >= 28 {
        let part = payload.subrange(24, 28);
        assert(part[0] == payload[24] && part[1] == payload[25]);
        assert(part[2] == payload[26] && part[3] == payload[27]);
        let gzip = seq![0u8, 0, 0x1f, 0x8b];
        let bitmap = seq![0u8, 0, 0x42, 0x4d];
        assert(gzip[2] == 0x1f && bitmap[2] == 0x42 && gzip[3] == 0x8b && bitmap[3] == 0x4d);
        assert(gzip[0] == 0 && gzip[1] == 0 && bitmap[0] == 0 && bitmap[1] == 0);
        if part[0] == 0 && part[1] == 0 && part[2] == 0x1f && part[3] == 0x8b {
            assert(part =~= gzip);
        }
        if part[0] == 0 && part[1] == 0 && part[2] == 0x42 && part[3] == 0x4d {
            assert(part =~= bitmap);
        }
        let version = payload.subrange(12, 24);
        let hex = capital_hex(version);
        assert forall|i: int|
            #![trigger payload[i]]
            12 <= i < 24 implies text::digit_value(hex[2 * (i - 12)]) == Some(
            (payload[i] / 16) as nat,
        ) && text::digit_value(hex[2 * (i - 12) + 1]) == Some((payload[i] % 16) as nat) by {
            assert(version[i - 12] == payload[i]);
            assert(2 * (i - 12) / 2 == i - 12 && (2 * (i - 12) + 1) / 2 == i - 12);
            assert(2 * (i - 12) % 2 == 0 && (2 * (i - 12) + 1) % 2 == 1);
        }
    }
}

/// A part is announced by one to three digits and a zero byte, and is as long as
/// the digits say; it lies within the data.
pub proof fn law_parts_are_as_long_as_announced(data: Seq<u8>, cursor: int)
    requires
        0 <= cursor,
    ensures
        part_at(data, cursor) matches Some((start, end)) ==> {
            let zero = start - 1;
            &&& 1 <= zero - cursor <= 3
            &&& data[zero] == 0
            &&& forall|i: int| cursor <= i < zero ==> 48 <= #[trigger] data[i] <= 57
            &&& end - start == number_of(data.subrange(cursor, zero))
            &&& end <= data.len()
        },
{
    lemma_first_zero(data, cursor, 4);
}

/// The digits of a length count by their place.
pub proof fn law_lengths_are_decimal(digits: Seq<u8>, digit: u8)
    requires
        48 <= digit <= 57,
    ensures
        number_of(seq![]) == 0,
        number_of(digits.push(digit)) == 10 * number_of(digits) + (digit - 48),
{
    assert(digits.push(digit).drop_last() =~= digits);
}

proof fn lemma_first_zero(data: Seq<u8>, from: int, limit: int)
    requires
        0 <= from,
    ensures
        first_zero(data, from, limit) matches Some(at) ==> {
            &&& from <= at < from + limit && at < data.len()
            &&& data[at] == 0
            &&& forall|i: int| from <= i < at ==> #[trigger] data[i] != 0
        },
    decreases limit,
{
    if limit > 0 && from < data.len() && data[from] != 0 {
        lemma_first_zero(data, from + 1, limit - 1);
    }
}

/// Parts follow each other without a gap, from the start of the data to the zeros
/// or 0xff that end it.
pub proof fn law_parts_follow_each_other(data: Seq<u8>, cursor: int)
    requires
        0 <= cursor <= data.len(),
        parts_from(data, cursor) is Some,
    ensures
        ({
            let parts = parts_from(data, cursor)->0;
            let starts = |i: int|
                if i == 0 {
                    cursor
                } else {
                    parts[i - 1].1
                };
            &&& forall|i: int|
                0 <= i < parts.len() ==> part_at(data, starts(i)) == Some(#[trigger] parts[i])
            &&& forall|k: int|
                starts(parts.len() as int) <= k < data.len() ==> #[trigger] data[k] == 0 || data[k]
                    == 255
        }),
    decreases data.len() - cursor,
{
    let parts = parts_from(data, cursor)->0;
    if cursor < data.len() && !padded_from(data, cursor) {
        let (start, end) = part_at(data, cursor)->0;
        law_parts_are_as_long_as_announced(data, cursor);
        law_parts_follow_each_other(data, end);
        let rest = parts_from(data, end)->0;
        assert(parts =~= seq![(start, end)] + rest);
        let starts = |i: int|
            if i == 0 {
                cursor
            } else {
                parts[i - 1].1
            };
        assert forall|i: int| 0 <= i < parts.len() implies part_at(data, starts(i)) == Some(
            #[trigger] parts[i],
        ) by {
            if i > 0 {
                assert(parts[i] == rest[i - 1]);
                if i > 1 {
                    assert(parts[i - 1] == rest[i - 2]);
                }
            }
        }
        assert(rest.len() > 0 ==> parts[parts.len() - 1] == rest[rest.len() - 1]);
    } else {
        assert forall|k: int| cursor <= k < data.len() implies #[trigger] data[k] == 0 || data[k]
            == 255 by {
            assert(is_padding_byte(data[k]));
        }
    }
}

/// The first part is called by whether it is text; a later one is a signature where
/// it has 256 bytes that are not all zero nor all 0xff, else random data where it is
/// the last one, and a part where it is not.
pub proof fn law_parts_are_labelled(part: Seq<u8>, index: int, count: int)
    requires
        0 <= index < count,
    ensures
        index == 0 && reads_as_text(part, true) ==> part_label(part, index, count) == "ASCII"@,
        index == 0 && !reads_as_text(part, true) ==> part_label(part, index, count) == "RAW"@,
        ({
            let plain = (forall|i: int| 0 <= i < part.len() ==> #[trigger] part[i] == 0) || (forall|
                i: int,
            |
                0 <= i < part.len() ==> #[trigger] part[i] == 255);
            &&& index > 0 && part.len() == 256 && !plain ==> part_label(part, index, count)
                == "SIGN"@
            &&& index > 0 && (part.len() != 256 || plain) && index == count - 1 ==> part_label(
                part,
                index,
                count,
            ) == "RANDOM"@
            &&& index > 0 && (part.len() != 256 || plain) && index < count - 1 ==> part_label(
                part,
                index,
                count,
            ) == "PART"@
        }),
{
}

/// What follows the signature of a payload is announced as a part is, by one to
/// three digits and a zero byte, and ends the payload; more than 256 bytes stand
/// before it.
pub proof fn law_random_data_ends_the_payload(payload: Seq<u8>)
    ensures
        !before_random(payload).1 ==> before_random(payload).0 == payload,
        before_random(payload).1 ==> {
            let start = before_random(payload).0.len() as int;
            &&& start > 256
            &&& before_random(payload).0 == payload.take(start)
            &&& exists|zero: int|
                {
                    &&& 1 <= zero - start <= 3 && zero < payload.len()
                    &&& #[trigger] payload[zero] == 0
                    &&& forall|i: int| start <= i < zero ==> 48 <= #[trigger] payload[i] <= 57
                    &&& payload.len() - (zero + 1) == number_of(payload.subrange(start, zero))
                }
        },
{
    if before_random(payload).1 {
        lemma_tail_part(payload, payload.len() - 1);
    }
}

proof fn lemma_tail_part(data: Seq<u8>, null: int)
    requires
        null < data.len(),
    ensures
        tail_part(data, null) matches Some(start) ==> 0 <= start < data.len() && exists|zero: int|
            {
                &&& 1 <= zero - start <= 3 && zero < data.len()
                &&& #[trigger] data[zero] == 0
                &&& forall|i: int| start <= i < zero ==> 48 <= #[trigger] data[i] <= 57
                &&& data.len() - (zero + 1) == number_of(data.subrange(start, zero))
            },
    decreases null,
{
    if null >= 1 {
        match tail_part_at(data, null) {
            Some(start) => {
                lemma_digits_before(data, null, 3);
                assert forall|i: int| start <= i < null implies 48 <= #[trigger] data[i] <= 57 by {
                    assert(is_digit_byte(data[i]));
                }
                assert(data[null] == 0);
            },
            None => {
                lemma_tail_part(data, null - 1);
            },
        }
    }
}

/// What a payload is taken for: an image, else parts, else text, else data with a
/// signature of 256 bytes, and else raw data. A signature is believed where random
/// data follows it, or where it looks random and the data before it does not.
pub proof fn law_payloads_are_told_apart(payload: Seq<u8>, data_dense: bool, signature_dense: bool)
    ensures
        ({
            let m = payload_model(payload, data_dense, signature_dense);
            let (rest, random) = before_random(payload);
            let data = rest.take(rest.len() - 256);
            let other = image_model(payload) is None && tlv_ranges(payload) is None;
            let text = reads_as_text(payload, false) && reads_as_text(payload, true);
            let signed = rest.len() > 256 && (random || (signature_dense && (!data_dense
                || reads_as_text(data, false))));
            let signed_text = reads_as_text(data, false) && reads_as_text(data, true);
            &&& image_model(payload) is Some ==> Some(m) == image_model(payload)
            &&& image_model(payload) is None ==> (m.kind == OemInfoPayloadKind::Tlv <==> tlv_ranges(
                payload,
            ) is Some)
            &&& image_model(payload) is None && tlv_ranges(payload) is Some ==> m.tlv_parts
                == tlv_ranges(payload)->0.len()
            &&& other && text ==> m.kind == OemInfoPayloadKind::Ascii && m.text_preview == Some(
                shown(payload),
            )
            &&& other && !text && signed && signed_text && random ==> m.kind
                == OemInfoPayloadKind::AsciiSignedRandom
            &&& other && !text && signed && signed_text && !random ==> m.kind
                == OemInfoPayloadKind::AsciiSigned
            &&& other && !text && signed && !signed_text && random ==> m.kind
                == OemInfoPayloadKind::RawSignedRandom
            &&& other && !text && signed && !signed_text && !random ==> m.kind
                == OemInfoPayloadKind::RawSigned
            &&& other && !text && signed && reads_as_text(data, false) ==> m.text_preview == Some(
                shown(data),
            )
            &&& other && !text && !signed ==> m.kind == OemInfoPayloadKind::Raw
        }),
{
}

/// The description of parts has their labels in order, with a plus between each two.
pub proof fn law_descriptions_join_labels(data: Seq<u8>, parts: Seq<(int, int)>, n: int)
    requires
        0 < n <= parts.len(),
    ensures
        ({
            let part = data.subrange(parts[n - 1].0, parts[n - 1].1);
            let label = part_label(part, n - 1, parts.len() as int);
            &&& n == 1 ==> labels(data, parts, n) == label
            &&& n > 1 ==> labels(data, parts, n) == labels(data, parts, n - 1) + seq!['+'] + label
        }),
{
    reveal_strlit("+");
    assert("+"@ =~= seq!['+']);
}

/// Raw data has a preview where it reads as text or has nothing but text and padding
/// in it.
pub proof fn law_raw_previews(payload: Seq<u8>, data_dense: bool, signature_dense: bool)
    ensures
        ({
            let m = payload_model(payload, data_dense, signature_dense);
            let plain = payload.len() > 0 && forall|i: int|
                #![trigger payload[i]]
                0 <= i < payload.len() ==> (32 <= payload[i] && payload[i] <= 126) || payload[i] == 9
                    || payload[i] == 10 || payload[i] == 13 || payload[i] == 0 || payload[i] == 255;
            m.kind == OemInfoPayloadKind::Raw ==> (if reads_as_text(payload, false) || plain {
                m.text_preview == Some(shown(payload))
            } else {
                m.text_preview is None
            })
        }),
{
    let plain = payload.len() > 0 && forall|i: int|
        #![trigger payload[i]]
        0 <= i < payload.len() ==> (32 <= payload[i] && payload[i] <= 126) || payload[i] == 9
            || payload[i] == 10 || payload[i] == 13 || payload[i] == 0 || payload[i] == 255;
    assert(plain == is_padded_text(payload));
    if let Some(m) = image_model(payload) {
        assert(m.kind != OemInfoPayloadKind::Raw);
    }
}

} // verus!
