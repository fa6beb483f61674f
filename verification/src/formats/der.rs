//! Values in the distinguished encoding rules, and bytes in hexadecimal.

use vstd::prelude::*;

use crate::text;

verus! {

// ---------------------------------------------------------------------------
// Hexadecimal
// ---------------------------------------------------------------------------

/// Bytes in hexadecimal, two small digits for each.
pub open spec fn lower_hex(data: Seq<u8>) -> Seq<char> {
    Seq::new(
        2 * data.len(),
        |i: int|
            if i % 2 == 0 {
                text::hex_digit(data[i / 2] as int / 16)
            } else {
                text::hex_digit(data[i / 2] as int % 16)
            },
    )
}

/// `hex::encode` writes each byte as two small hexadecimal digits, the high half
/// first, in the order of the bytes.
#[verifier::external_body]
pub(crate) fn encode(data: &[u8]) -> (encoded: String)
    ensures
        encoded@ == lower_hex(data@),
{
    hex::encode(data)
}

/// True for an even number of hexadecimal digits.
pub open spec fn is_hex(s: Seq<char>) -> bool {
    s.len() % 2 == 0 && forall|i: int| 0 <= i < s.len() ==> text::is_digit_in(#[trigger] s[i], 16)
}

/// The bytes that hexadecimal digits write.
pub open spec fn hex_bytes(s: Seq<char>) -> Seq<u8> {
    Seq::new(
        s.len() / 2,
        |i: int| (16 * text::digit_value(s[2 * i])->0 + text::digit_value(s[2 * i + 1])->0) as u8,
    )
}

/// `hex::decode` reads pairs of hexadecimal digits, large or small, and refuses
/// any other text.
#[verifier::external_body]
fn decode(text: &str) -> (decoded: Option<Vec<u8>>)
    ensures
        match decoded {
            Some(data) => is_hex(text@) && data@ == hex_bytes(text@),
            None => !is_hex(text@),
        },
{
    hex::decode(text).ok()
}

/// The bytes that hexadecimal digits write.
pub fn decode_hex(digits: &str) -> (decoded: Option<Vec<u8>>)
    ensures
        match decoded {
            Some(data) => is_hex(digits@) && data@ == hex_bytes(digits@),
            None => !is_hex(digits@),
        },
{
    decode(digits)
}

/// Bytes that are written in hexadecimal read back as they were.
pub proof fn law_hexadecimal_reads_back(data: Seq<u8>)
    ensures
        is_hex(lower_hex(data)),
        hex_bytes(lower_hex(data)) == data,
{
    let s = lower_hex(data);
    assert forall|i: int| 0 <= i < s.len() implies text::is_digit_in(#[trigger] s[i], 16) by {
        let b = data[i / 2] as int;
        assert(0 <= b / 16 < 16 && 0 <= b % 16 < 16);
    }
    assert forall|i: int| 0 <= i < data.len() implies hex_bytes(s)[i] == data[i] by {
        let b = data[i] as int;
        assert((2 * i) / 2 == i);
        assert((2 * i + 1) / 2 == i);
        assert(s[2 * i] == text::hex_digit(b / 16));
        assert(s[2 * i + 1] == text::hex_digit(b % 16));
        assert(text::digit_value(text::hex_digit(b / 16)) == Some((b / 16) as nat));
        assert(text::digit_value(text::hex_digit(b % 16)) == Some((b % 16) as nat));
    }
    assert(hex_bytes(s) =~= data);
}

// ---------------------------------------------------------------------------
// Values
// ---------------------------------------------------------------------------

/// The number that bytes write, most significant first.
pub open spec fn big_endian(s: Seq<u8>) -> nat
    decreases s.len(),
{
    if s.len() == 0 {
        0
    } else {
        big_endian(s.drop_last()) * 256 + s.last() as nat
    }
}

proof fn lemma_big_endian(s: Seq<u8>)
    ensures
        s.len() <= 8 ==> big_endian(s) <= u64::MAX,
        s.len() <= 7 ==> big_endian(s) <= 0xff_ffff_ffff_ffff,
        s.len() <= 6 ==> big_endian(s) <= 0xffff_ffff_ffff,
        s.len() <= 5 ==> big_endian(s) <= 0xff_ffff_ffff,
        s.len() <= 4 ==> big_endian(s) <= 0xffff_ffff,
        s.len() <= 3 ==> big_endian(s) <= 0xff_ffff,
        s.len() <= 2 ==> big_endian(s) <= 0xffff,
        s.len() <= 1 ==> big_endian(s) <= 0xff,
    decreases s.len(),
{
    if s.len() > 0 {
        lemma_big_endian(s.drop_last());
    }
}

fn read_big_endian(data: &[u8]) -> (number: u64)
    requires
        data@.len() <= 8,
    ensures
        number == big_endian(data@),
{
    let mut number: u64 = 0;
    let mut i: usize = 0;
    while i < data.len()
        invariant
            i <= data@.len() <= 8,
            number == big_endian(data@.take(i as int)),
        decreases data@.len() - i,
    {
        proof {
            lemma_big_endian(data@.take(i as int));
            lemma_big_endian(data@.take(i + 1));
            assert(data@.take(i + 1).drop_last() =~= data@.take(i as int));
        }
        number = number * 256 + data[i] as u64;
        i += 1;
    }
    assert(data@.take(i as int) =~= data@);
    number
}

/// The tag and the contents of a value that is all of the bytes. Its length
/// takes no more bytes than it needs.
pub open spec fn der_value(raw: Seq<u8>) -> Option<(u8, Seq<u8>)> {
    if raw.len() < 2 || raw[0] % 32 == 31 {
        None
    } else if raw[1] < 128 {
        if raw.len() == 2 + raw[1] {
            Some((raw[0], raw.skip(2)))
        } else {
            None
        }
    } else {
        let n = raw[1] - 128;
        let length = big_endian(raw.subrange(2, 2 + n));
        if n == 0 || n > 8 || raw.len() < 2 + n || raw[2] == 0 || length < 128 || raw.len() != 2 + n
            + length {
            None
        } else {
            Some((raw[0], raw.skip(2 + n)))
        }
    }
}

pub fn single_der_value(raw: &[u8]) -> (value: Option<(u8, &[u8])>)
    ensures
        match value {
            Some((tag, content)) => der_value(raw@) == Some((tag, content@)),
            None => der_value(raw@) is None,
        },
{
    if raw.len() < 2 || raw[0] % 32 == 31 {
        return None;
    }
    let first: u8 = raw[1];
    if first < 128 {
        if raw.len() != 2 + first as usize {
            return None;
        }
        assert(raw@.skip(2) =~= raw@.subrange(2, raw@.len() as int));
        return Some((raw[0], &raw[2..raw.len()]));
    }
    let n: usize = (first - 128) as usize;
    if n == 0 || n > 8 || raw.len() < 2 + n || raw[2] == 0 {
        return None;
    }
    let length: u64 = read_big_endian(&raw[2..2 + n]);
    if length < 128 || length as u128 + 2 + n as u128 != raw.len() as u128 {
        return None;
    }
    assert(raw@.skip(2 + n) =~= raw@.subrange(2 + n, raw@.len() as int));
    Some((raw[0], &raw[2 + n..raw.len()]))
}

/// The number of an integer that is not negative, is written in its shortest
/// form and fits in 64 bits.
pub open spec fn unsigned_of(content: Seq<u8>) -> Option<u64> {
    if content.len() == 0 || content[0] >= 128 {
        None
    } else if content[0] == 0 && content.len() == 1 {
        Some(0)
    } else if content[0] == 0 && content[1] < 128 {
        None
    } else {
        let digits = if content[0] == 0 {
            content.skip(1)
        } else {
            content
        };
        if digits.len() > 8 {
            None
        } else {
            Some(big_endian(digits) as u64)
        }
    }
}

pub fn decode_unsigned_integer(content: &[u8]) -> (number: Option<u64>)
    ensures
        number == unsigned_of(content@),
{
    if content.len() == 0 || content[0] >= 128 {
        return None;
    }
    if content[0] == 0 {
        if content.len() == 1 {
            return Some(0);
        }
        if content[1] < 128 {
            return None;
        }
        if content.len() > 9 {
            return None;
        }
        let digits = &content[1..content.len()];
        assert(digits@ =~= content@.skip(1));
        return Some(read_big_endian(digits));
    }
    if content.len() > 8 {
        return None;
    }
    Some(read_big_endian(content))
}

/// The text of bytes that are all printable ASCII.
pub open spec fn printable(data: Seq<u8>) -> Option<Seq<char>> {
    if data.len() > 0 && forall|i: int| 0 <= i < data.len() ==> 0x20 <= #[trigger] data[i] <= 0x7e {
        Some(data.map_values(|b: u8| b as char))
    } else {
        None
    }
}

pub fn printable_text(data: &[u8]) -> (found: Option<String>)
    ensures
        match found {
            Some(chars) => printable(data@) == Some(chars@),
            None => printable(data@) is None,
        },
{
    if data.len() == 0 {
        return None;
    }
    let mut chars: Vec<char> = Vec::new();
    let mut i: usize = 0;
    while i < data.len()
        invariant
            i <= data@.len(),
            chars@.len() == i,
            forall|k: int|
                0 <= k < i ==> 0x20 <= #[trigger] data@[k] <= 0x7e && chars@[k] == data@[k] as char,
        decreases data@.len() - i,
    {
        let b: u8 = data[i];
        if b < 0x20 || b > 0x7e {
            assert(!(0x20 <= data@[i as int] <= 0x7e));
            return None;
        }
        chars.push(b as char);
        i += 1;
    }
    assert(chars@ =~= data@.map_values(|b: u8| b as char));
    Some(text::string_of(chars.as_slice()))
}

/// Bytes in hexadecimal have two small digits each, the high half first.
pub proof fn law_bytes_have_two_digits(data: Seq<u8>, i: int)
    requires
        0 <= i < data.len(),
    ensures
        lower_hex(data).len() == 2 * data.len(),
        text::digit_value(lower_hex(data)[2 * i]) == Some((data[i] / 16) as nat),
        text::digit_value(lower_hex(data)[2 * i + 1]) == Some((data[i] % 16) as nat),
        !('A' <= lower_hex(data)[2 * i] <= 'F') && !('A' <= lower_hex(data)[2 * i + 1] <= 'F'),
{
    assert((2 * i) / 2 == i && (2 * i + 1) / 2 == i);
    assert((2 * i) % 2 == 0 && (2 * i + 1) % 2 == 1);
}

/// Every further byte of a number makes those before it count 256 times as much.
pub proof fn law_numbers_start_with_their_highest_byte(s: Seq<u8>, byte: u8)
    ensures
        big_endian(seq![]) == 0,
        big_endian(s.push(byte)) == 256 * big_endian(s) + byte,
{
    assert(s.push(byte).drop_last() =~= s);
}

/// A value is its tag, its length and its contents: a length below 128 is one byte,
/// a longer one is the number of its bytes and 128, and the bytes, none of them
/// needless.
pub proof fn law_values_are_tag_length_and_contents(tag: u8, length: Seq<u8>, content: Seq<u8>)
    requires
        tag % 32 != 31,
    ensures
        content.len() < 128 ==> der_value(seq![tag, content.len() as u8] + content) == Some(
            (tag, content),
        ),
        content.len() >= 128 && 1 <= length.len() <= 8 && length[0] != 0 && big_endian(length)
            == content.len() ==> der_value(
            seq![tag, (128 + length.len()) as u8] + length + content,
        ) == Some((tag, content)),
{
    if content.len() < 128 {
        let raw = seq![tag, content.len() as u8] + content;
        assert(raw.skip(2) =~= content);
    } else if 1 <= length.len() <= 8 {
        let raw = seq![tag, (128 + length.len()) as u8] + length + content;
        let n = length.len() as int;
        assert(raw[1] == 128 + n);
        assert(raw.subrange(2, 2 + n) =~= length);
        assert(raw.skip(2 + n) =~= content);
        assert(raw[2] == length[0]);
    }
}

/// What is read as a value is all of the bytes, with the first one as its tag and
/// its contents at the end; high tags, and lengths that are not as short as they can
/// be, are refused.
pub proof fn law_values_take_all_bytes(raw: Seq<u8>)
    ensures
        der_value(raw) matches Some((tag, content)) ==> {
            let head = raw.len() - content.len();
            &&& tag == raw[0] && tag % 32 != 31
            &&& raw.skip(head) == content
            &&& content.len() < 128 ==> head == 2 && raw[1] == content.len()
            &&& content.len() >= 128 ==> head == 2 + (raw[1] - 128) && 3 <= head <= 10 && raw[2] != 0
                && big_endian(raw.subrange(2, head)) == content.len()
        },
{
}

/// A number is not negative, has no needless zero before it and fits in 64 bits; it
/// is what its bytes write, the highest one first.
pub proof fn law_numbers_are_read(content: Seq<u8>)
    ensures
        unsigned_of(content) matches Some(n) ==> big_endian(content) == n,
        content.len() == 0 || content[0] >= 128 ==> unsigned_of(content) is None,
        1 <= content.len() <= 8 && 1 <= content[0] <= 127 ==> unsigned_of(content) is Some,
        2 <= content.len() <= 9 && content[0] == 0 ==> (unsigned_of(content) is Some <==> content[1]
            >= 128),
        content.len() > 9 ==> unsigned_of(content) is None,
{
    lemma_big_endian(content);
    if content.len() > 0 && content[0] == 0 {
        lemma_zero_before(content);
        lemma_big_endian(content.skip(1));
    }
}

proof fn lemma_zero_before(s: Seq<u8>)
    requires
        s.len() > 0,
        s[0] == 0,
    ensures
        big_endian(s) == big_endian(s.skip(1)),
    decreases s.len(),
{
    if s.len() > 1 {
        let less = s.drop_last();
        lemma_zero_before(less);
        assert(less.skip(1) =~= s.skip(1).drop_last());
    } else {
        assert(s.drop_last() =~= Seq::<u8>::empty());
        assert(s.skip(1) =~= Seq::<u8>::empty());
        assert(big_endian(s.drop_last()) == 0);
    }
}

/// Bytes are text where there are some and all of them can be printed; the text has
/// a character for each.
pub proof fn law_printable_bytes_are_text(data: Seq<u8>)
    ensures
        printable(data) is Some <==> data.len() > 0 && forall|i: int|
            0 <= i < data.len() ==> 32 <= #[trigger] data[i] <= 126,
        printable(data) matches Some(t) ==> t.len() == data.len() && forall|i: int|
            0 <= i < t.len() ==> #[trigger] t[i] as int == data[i] as int,
{
}

} // verus!
